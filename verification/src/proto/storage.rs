//! Messages that are stored: entries, operations, heads and chain tips.
use crate::bytes::to_vec;
use crate::message;
use crate::message::{byte_models, model, models, Message};
use crate::schema::Shape;
use crate::wire;
use crate::wire::{Field, FieldModel, ValueModel, WireValue};
use vstd::prelude::*;

verus! {

/// The number that stands for a flag.
pub open spec fn bit(b: bool) -> u64 {
    if b {
        1
    } else {
        0
    }
}

/// A hybrid logical timestamp.
#[derive(Clone, Copy, Debug, PartialEq, Eq, Structural)]
pub struct Hlc {
    pub wall_time: u64,
    pub counter: u32,
}

impl View for Hlc {
    type V = Hlc;

    open spec fn view(&self) -> Hlc {
        *self
    }
}

impl Message for Hlc {
    open spec fn shape() -> Shape {
        Shape::Hlc
    }

    fn shape_of() -> (r: Shape) {
        Shape::Hlc
    }

    open spec fn empty() -> Hlc {
        Hlc { wall_time: 0, counter: 0 }
    }

    open spec fn fields(m: Hlc) -> Seq<FieldModel> {
        wire::number_field(1, m.wall_time)
            + wire::number_field(2, m.counter as u64)
    }

    open spec fn step(acc: Hlc, f: FieldModel, depth: u32) -> Option<Hlc> {
        if f.tag == 1 {
            match f.value {
                ValueModel::Varint(v) => Some(Hlc { wall_time: v, ..acc }),
                _ => None,
            }
        } else if f.tag == 2 {
            match f.value {
                ValueModel::Varint(v) => Some(Hlc { counter: v as u32, ..acc }),
                _ => None,
            }
        } else {
            Some(acc)
        }
    }

    proof fn lemma_step(acc: Hlc, f: FieldModel, depth: u32) {
    }

    fn empty_message() -> (r: Self) {
        let r = Hlc { wall_time: 0, counter: 0 };
        r
    }

    fn take_field(self, f: &Field, depth: u32) -> (r: Option<Self>) {
        let mut m: Hlc = self;
        if f.tag == 1 {
            match &f.value {
                WireValue::Varint(v) => {
                    m.wall_time = *v;
                },
                _ => {
                    return None;
                },
            }
        } else if f.tag == 2 {
            match &f.value {
                WireValue::Varint(v) => {
                    m.counter = *v as u32;
                },
                _ => {
                    return None;
                },
            }
        }
        Some(m)
    }

    fn duplicate(&self) -> (r: Self) {
        *self
    }

    fn put_fields(&self, out: &mut Vec<u8>) {
        let ghost base = out@;
        let ghost m = self@;
        wire::put_number(1, self.wall_time, out);
        let ghost done = wire::number_field(1, m.wall_time);
        wire::put_number(2, self.counter as u64, out);
        proof {
            message::lemma_append(base, done, wire::number_field(2, m.counter as u64));
        }
    }
}

/// An [`Hlc`] is read back as it was written, provided its encoding has a 64-bit length.
pub proof fn law_hlc_round_trip(m: Hlc)
    ensures
        message::decoded::<Hlc>(message::encoded::<Hlc>(m)) == Some(m),
{
    reveal(message::decoded);
    lemma_hlc_at(m, wire::NESTING_LIMIT);
}

/// The same, in a message that may have `depth` more levels.
pub proof fn lemma_hlc_at(m: Hlc, depth: u32)
    ensures
        message::decoded_at::<Hlc>(message::encoded::<Hlc>(m), depth) == Some(m),
{
    let step = message::step_of::<Hlc>(depth);
    let fields = Hlc::fields(m);
    let s1 = wire::number_field(1, m.wall_time);
    let s2 = wire::number_field(2, m.counter as u64);
    let p1 = s1;
    let p2 = p1 + s2;
    assert(message::shape_ok(s1));
    assert(message::shape_ok(s2));
    message::lemma_shape_concat(p1, s2);
    assert(message::fields_ok(fields));
    let a0 = Hlc::empty();
    let a1 = Hlc { wall_time: m.wall_time, ..a0 };
    let a2 = Hlc { counter: m.counter, ..a1 };
    message::lemma_fold_number(a0, 1, m.wall_time, step, a1);
    message::lemma_fold_number(a1, 2, m.counter as u64, step, a2);
    wire::lemma_fold_concat(a0, p1, s2, step);
    message::lemma_round_trip::<Hlc>(m, depth);
}

/// Sets a key to a value.
#[derive(Debug, PartialEq, Eq)]
pub struct PutOp {
    pub key: Vec<u8>,
    pub value: Vec<u8>,
}

/// The model of [`PutOp`].
pub struct PutOpModel {
    pub key: Seq<u8>,
    pub value: Seq<u8>,
}

impl View for PutOp {
    type V = PutOpModel;

    open spec fn view(&self) -> PutOpModel {
        PutOpModel {
            key: self.key@,
            value: self.value@,
        }
    }
}

impl Message for PutOp {
    open spec fn shape() -> Shape {
        Shape::PutOp
    }

    fn shape_of() -> (r: Shape) {
        Shape::PutOp
    }

    open spec fn empty() -> PutOpModel {
        PutOpModel { key: Seq::empty(), value: Seq::empty() }
    }

    open spec fn fields(m: PutOpModel) -> Seq<FieldModel> {
        wire::bytes_field(1, m.key)
            + wire::bytes_field(2, m.value)
    }

    open spec fn step(acc: PutOpModel, f: FieldModel, depth: u32) -> Option<PutOpModel> {
        if f.tag == 1 {
            match f.value {
                ValueModel::Bytes(b) => Some(PutOpModel { key: b, ..acc }),
                _ => None,
            }
        } else if f.tag == 2 {
            match f.value {
                ValueModel::Bytes(b) => Some(PutOpModel { value: b, ..acc }),
                _ => None,
            }
        } else {
            Some(acc)
        }
    }

    proof fn lemma_step(acc: PutOpModel, f: FieldModel, depth: u32) {
    }

    fn empty_message() -> (r: Self) {
        let r = PutOp { key: Vec::new(), value: Vec::new() };
        r
    }

    fn take_field(self, f: &Field, depth: u32) -> (r: Option<Self>) {
        let mut m: PutOp = self;
        if f.tag == 1 {
            match &f.value {
                WireValue::Bytes(b) => {
                    m.key = to_vec(b.as_slice());
                },
                _ => {
                    return None;
                },
            }
        } else if f.tag == 2 {
            match &f.value {
                WireValue::Bytes(b) => {
                    m.value = to_vec(b.as_slice());
                },
                _ => {
                    return None;
                },
            }
        }
        Some(m)
    }

    fn duplicate(&self) -> (r: Self) {
        PutOp {
            key: to_vec(self.key.as_slice()),
            value: to_vec(self.value.as_slice()),
        }
    }

    fn put_fields(&self, out: &mut Vec<u8>) {
        let ghost base = out@;
        let ghost m = self@;
        wire::put_bytes(1, self.key.as_slice(), out);
        let ghost done = wire::bytes_field(1, m.key);
        wire::put_bytes(2, self.value.as_slice(), out);
        proof {
            message::lemma_append(base, done, wire::bytes_field(2, m.value));
        }
    }
}

impl Clone for PutOp {
    fn clone(&self) -> (r: Self)
        ensures
            r@ == self@,
    {
        self.duplicate()
    }
}

/// A [`PutOp`] is read back as it was written, provided its encoding has a 64-bit length.
pub proof fn law_put_op_round_trip(m: PutOpModel)
    requires
        message::encoded::<PutOp>(m).len() <= u64::MAX,
    ensures
        message::decoded::<PutOp>(message::encoded::<PutOp>(m)) == Some(m),
{
    reveal(message::decoded);
    lemma_put_op_at(m, wire::NESTING_LIMIT);
}

/// The same, in a message that may have `depth` more levels.
pub proof fn lemma_put_op_at(m: PutOpModel, depth: u32)
    requires
        message::encoded::<PutOp>(m).len() <= u64::MAX,
    ensures
        message::decoded_at::<PutOp>(message::encoded::<PutOp>(m), depth) == Some(m),
{
    let step = message::step_of::<PutOp>(depth);
    let fields = PutOp::fields(m);
    let s1 = wire::bytes_field(1, m.key);
    let s2 = wire::bytes_field(2, m.value);
    let p1 = s1;
    let p2 = p1 + s2;
    assert(message::shape_ok(s1));
    assert(message::shape_ok(s2));
    message::lemma_shape_concat(p1, s2);
    message::lemma_fields_ok(fields);
    let a0 = PutOp::empty();
    let a1 = PutOpModel { key: m.key, ..a0 };
    let a2 = PutOpModel { value: m.value, ..a1 };
    assert(m.key.len() == 0 ==> m.key =~= Seq::empty());
    message::lemma_fold_bytes(a0, 1, m.key, step, a1);
    assert(m.value.len() == 0 ==> m.value =~= Seq::empty());
    message::lemma_fold_bytes(a1, 2, m.value, step, a2);
    wire::lemma_fold_concat(a0, p1, s2, step);
    message::lemma_round_trip::<PutOp>(m, depth);
}

/// Deletes a key.
#[derive(Debug, PartialEq, Eq)]
pub struct DeleteOp {
    pub key: Vec<u8>,
}

/// The model of [`DeleteOp`].
pub struct DeleteOpModel {
    pub key: Seq<u8>,
}

impl View for DeleteOp {
    type V = DeleteOpModel;

    open spec fn view(&self) -> DeleteOpModel {
        DeleteOpModel {
            key: self.key@,
        }
    }
}

impl Message for DeleteOp {
    open spec fn shape() -> Shape {
        Shape::DeleteOp
    }

    fn shape_of() -> (r: Shape) {
        Shape::DeleteOp
    }

    open spec fn empty() -> DeleteOpModel {
        DeleteOpModel { key: Seq::empty() }
    }

    open spec fn fields(m: DeleteOpModel) -> Seq<FieldModel> {
        wire::bytes_field(1, m.key)
    }

    open spec fn step(acc: DeleteOpModel, f: FieldModel, depth: u32) -> Option<DeleteOpModel> {
        if f.tag == 1 {
            match f.value {
                ValueModel::Bytes(b) => Some(DeleteOpModel { key: b, ..acc }),
                _ => None,
            }
        } else {
            Some(acc)
        }
    }

    proof fn lemma_step(acc: DeleteOpModel, f: FieldModel, depth: u32) {
    }

    fn empty_message() -> (r: Self) {
        let r = DeleteOp { key: Vec::new() };
        r
    }

    fn take_field(self, f: &Field, depth: u32) -> (r: Option<Self>) {
        let mut m: DeleteOp = self;
        if f.tag == 1 {
            match &f.value {
                WireValue::Bytes(b) => {
                    m.key = to_vec(b.as_slice());
                },
                _ => {
                    return None;
                },
            }
        }
        Some(m)
    }

    fn duplicate(&self) -> (r: Self) {
        DeleteOp {
            key: to_vec(self.key.as_slice()),
        }
    }

    fn put_fields(&self, out: &mut Vec<u8>) {
        let ghost base = out@;
        let ghost m = self@;
        wire::put_bytes(1, self.key.as_slice(), out);
        let ghost done = wire::bytes_field(1, m.key);
    }
}

impl Clone for DeleteOp {
    fn clone(&self) -> (r: Self)
        ensures
            r@ == self@,
    {
        self.duplicate()
    }
}

/// A [`DeleteOp`] is read back as it was written, provided its encoding has a 64-bit length.
pub proof fn law_delete_op_round_trip(m: DeleteOpModel)
    requires
        message::encoded::<DeleteOp>(m).len() <= u64::MAX,
    ensures
        message::decoded::<DeleteOp>(message::encoded::<DeleteOp>(m)) == Some(m),
{
    reveal(message::decoded);
    lemma_delete_op_at(m, wire::NESTING_LIMIT);
}

/// The same, in a message that may have `depth` more levels.
pub proof fn lemma_delete_op_at(m: DeleteOpModel, depth: u32)
    requires
        message::encoded::<DeleteOp>(m).len() <= u64::MAX,
    ensures
        message::decoded_at::<DeleteOp>(message::encoded::<DeleteOp>(m), depth) == Some(m),
{
    let step = message::step_of::<DeleteOp>(depth);
    let fields = DeleteOp::fields(m);
    let s1 = wire::bytes_field(1, m.key);
    let p1 = s1;
    assert(message::shape_ok(s1));
    message::lemma_fields_ok(fields);
    let a0 = DeleteOp::empty();
    let a1 = DeleteOpModel { key: m.key, ..a0 };
    assert(m.key.len() == 0 ==> m.key =~= Seq::empty());
    message::lemma_fold_bytes(a0, 1, m.key, step, a1);
    message::lemma_round_trip::<DeleteOp>(m, depth);
}

/// What an operation does.
#[derive(Debug, PartialEq, Eq)]
pub enum OpType {
    Put(PutOp),
    Delete(DeleteOp),
}

/// One operation of an entry.
#[derive(Debug, PartialEq, Eq)]
pub struct Operation {
    pub op_type: Option<OpType>,
}

/// The model of [`OpType`].
pub enum OpTypeModel {
    Put(PutOpModel),
    Delete(DeleteOpModel),
}

/// The model of [`Operation`].
pub struct OperationModel {
    pub op_type: Option<OpTypeModel>,
}

impl Clone for OpType {
    fn clone(&self) -> (r: Self)
        ensures
            r@ == self@,
    {
        match self {
            OpType::Put(p) => OpType::Put(p.clone()),
            OpType::Delete(d) => OpType::Delete(d.clone()),
        }
    }
}

impl View for OpType {
    type V = OpTypeModel;

    open spec fn view(&self) -> OpTypeModel {
        match self {
            OpType::Put(p) => OpTypeModel::Put(p@),
            OpType::Delete(d) => OpTypeModel::Delete(d@),
        }
    }
}

impl View for Operation {
    type V = OperationModel;

    open spec fn view(&self) -> OperationModel {
        OperationModel { op_type: model(self.op_type) }
    }
}

impl OperationModel {
    /// The key that the operation is about, where it does anything.
    pub open spec fn key(self) -> Option<Seq<u8>> {
        match self.op_type {
            Some(OpTypeModel::Put(p)) => Some(p.key),
            Some(OpTypeModel::Delete(d)) => Some(d.key),
            None => None,
        }
    }
}

impl Operation {
    /// An operation that sets `key` to `value`.
    pub fn put(key: Vec<u8>, value: Vec<u8>) -> (r: Operation)
        ensures
            r@ == (OperationModel {
                op_type: Some(OpTypeModel::Put(PutOpModel { key: key@, value: value@ })),
            }),
    {
        Operation { op_type: Some(OpType::Put(PutOp { key, value })) }
    }

    /// An operation that deletes `key`.
    pub fn delete(key: Vec<u8>) -> (r: Operation)
        ensures
            r@ == (OperationModel {
                op_type: Some(OpTypeModel::Delete(DeleteOpModel { key: key@ })),
            }),
    {
        Operation { op_type: Some(OpType::Delete(DeleteOp { key })) }
    }

    /// The key that the operation is about, where it does anything.
    pub fn key(&self) -> (r: Option<&Vec<u8>>)
        ensures
            match self@.key() {
                Some(k) => r matches Some(x) && x@ == k,
                None => r is None,
            },
    {
        match &self.op_type {
            Some(OpType::Put(p)) => Some(&p.key),
            Some(OpType::Delete(d)) => Some(&d.key),
            None => None,
        }
    }
}

impl Message for Operation {
    open spec fn shape() -> Shape {
        Shape::Operation
    }

    fn shape_of() -> (r: Shape) {
        Shape::Operation
    }

    open spec fn empty() -> OperationModel {
        OperationModel { op_type: None }
    }

    open spec fn fields(m: OperationModel) -> Seq<FieldModel> {
        match m.op_type {
            Some(OpTypeModel::Put(p)) => seq![wire::item_field(1, message::encoded::<PutOp>(p))],
            Some(OpTypeModel::Delete(d)) => seq![
                wire::item_field(2, message::encoded::<DeleteOp>(d)),
            ],
            None => Seq::empty(),
        }
    }

    open spec fn step(acc: OperationModel, f: FieldModel, depth: u32) -> Option<OperationModel> {
        if f.tag == 1 {
            match f.value {
                ValueModel::Bytes(b) => match message::embedded::<PutOp>(
                    match acc.op_type {
                        Some(OpTypeModel::Put(p)) => p,
                        _ => PutOp::empty(),
                    },
                    b,
                    depth,
                ) {
                    Some(p) => Some(OperationModel { op_type: Some(OpTypeModel::Put(p)) }),
                    None => None,
                },
                _ => None,
            }
        } else if f.tag == 2 {
            match f.value {
                ValueModel::Bytes(b) => match message::embedded::<DeleteOp>(
                    match acc.op_type {
                        Some(OpTypeModel::Delete(d)) => d,
                        _ => DeleteOp::empty(),
                    },
                    b,
                    depth,
                ) {
                    Some(d) => Some(OperationModel { op_type: Some(OpTypeModel::Delete(d)) }),
                    None => None,
                },
                _ => None,
            }
        } else {
            Some(acc)
        }
    }

    proof fn lemma_step(acc: OperationModel, f: FieldModel, depth: u32) {
        if f.tag == 1 {
            message::lemma_sound_is_read::<PutOp>(f.value->Bytes_0, (depth - 1) as u32);
        }
        if f.tag == 2 {
            message::lemma_sound_is_read::<DeleteOp>(f.value->Bytes_0, (depth - 1) as u32);
        }
    }

    fn empty_message() -> (r: Self) {
        Operation { op_type: None }
    }

    fn take_field(self, f: &Field, depth: u32) -> (r: Option<Self>) {
        if f.tag == 1 {
            match &f.value {
                WireValue::Bytes(b) => {
                    let init = match self.op_type {
                        Some(OpType::Put(p)) => p,
                        _ => PutOp::empty_message(),
                    };
                    match message::merge_embedded(init, b.as_slice(), depth) {
                        Some(p) => Some(Operation { op_type: Some(OpType::Put(p)) }),
                        None => None,
                    }
                },
                _ => None,
            }
        } else if f.tag == 2 {
            match &f.value {
                WireValue::Bytes(b) => {
                    let init = match self.op_type {
                        Some(OpType::Delete(d)) => d,
                        _ => DeleteOp::empty_message(),
                    };
                    match message::merge_embedded(init, b.as_slice(), depth) {
                        Some(d) => Some(Operation { op_type: Some(OpType::Delete(d)) }),
                        None => None,
                    }
                },
                _ => None,
            }
        } else {
            Some(self)
        }
    }

    fn duplicate(&self) -> (r: Self) {
        match &self.op_type {
            Some(OpType::Put(p)) => Operation { op_type: Some(OpType::Put(p.duplicate())) },
            Some(OpType::Delete(d)) => Operation { op_type: Some(OpType::Delete(d.duplicate())) },
            None => Operation { op_type: None },
        }
    }

    fn put_fields(&self, out: &mut Vec<u8>) {
        match &self.op_type {
            Some(OpType::Put(p)) => {
                let body: Vec<u8> = message::encode(p);
                wire::put_item(1, body.as_slice(), out);
            },
            Some(OpType::Delete(d)) => {
                let body: Vec<u8> = message::encode(d);
                wire::put_item(2, body.as_slice(), out);
            },
            None => {
                assert(out@ =~= old(out)@ + wire::fields_bytes(Seq::<FieldModel>::empty()));
            },
        }
    }
}

impl Clone for Operation {
    fn clone(&self) -> (r: Self)
        ensures
            r@ == self@,
    {
        self.duplicate()
    }
}

/// An [`Operation`] is read back as it was written, provided its encoding has a 64-bit length.
pub proof fn law_operation_round_trip(m: OperationModel)
    requires
        message::encoded::<Operation>(m).len() <= u64::MAX,
    ensures
        message::decoded::<Operation>(message::encoded::<Operation>(m)) == Some(m),
{
    reveal(message::decoded);
    lemma_operation_at(m, wire::NESTING_LIMIT);
}

/// The same, in a message that may have `depth` more levels.
pub proof fn lemma_operation_at(m: OperationModel, depth: u32)
    requires
        depth >= 1,
        message::encoded::<Operation>(m).len() <= u64::MAX,
    ensures
        message::decoded_at::<Operation>(message::encoded::<Operation>(m), depth) == Some(m),
{
    let step = message::step_of::<Operation>(depth);
    let fields = Operation::fields(m);
    message::lemma_fields_ok(fields);
    match m.op_type {
        Some(OpTypeModel::Put(p)) => {
            message::lemma_payload_within(fields, 0);
            lemma_put_op_at(p, (depth - 1) as u32);
            wire::lemma_fold_one(Operation::empty(), fields[0], step);
        },
        Some(OpTypeModel::Delete(d)) => {
            message::lemma_payload_within(fields, 0);
            lemma_delete_op_at(d, (depth - 1) as u32);
            wire::lemma_fold_one(Operation::empty(), fields[0], step);
        },
        None => {},
    }
    message::lemma_round_trip::<Operation>(m, depth);
}

/// An entry of an author's chain.
#[derive(Debug, PartialEq, Eq)]
pub struct Entry {
    pub version: u32,
    pub store_id: Vec<u8>,
    pub prev_hash: Vec<u8>,
    pub parent_hashes: Vec<Vec<u8>>,
    pub seq: u64,
    pub timestamp: Option<Hlc>,
    pub ops: Vec<Operation>,
}

/// The model of [`Entry`].
pub struct EntryModel {
    pub version: u32,
    pub store_id: Seq<u8>,
    pub prev_hash: Seq<u8>,
    pub parent_hashes: Seq<Seq<u8>>,
    pub seq: u64,
    pub timestamp: Option<Hlc>,
    pub ops: Seq<OperationModel>,
}

impl View for Entry {
    type V = EntryModel;

    open spec fn view(&self) -> EntryModel {
        EntryModel {
            version: self.version,
            store_id: self.store_id@,
            prev_hash: self.prev_hash@,
            parent_hashes: byte_models(self.parent_hashes@),
            seq: self.seq,
            timestamp: model(self.timestamp),
            ops: models(self.ops@),
        }
    }
}

impl Message for Entry {
    open spec fn shape() -> Shape {
        Shape::Entry
    }

    fn shape_of() -> (r: Shape) {
        Shape::Entry
    }

    open spec fn empty() -> EntryModel {
        EntryModel { version: 0, store_id: Seq::empty(), prev_hash: Seq::empty(), parent_hashes: Seq::empty(), seq: 0, timestamp: None, ops: Seq::empty() }
    }

    open spec fn fields(m: EntryModel) -> Seq<FieldModel> {
        wire::number_field(1, m.version as u64)
            + wire::bytes_field(2, m.store_id)
            + wire::bytes_field(3, m.prev_hash)
            + message::bytes_items(4, m.parent_hashes)
            + wire::number_field(5, m.seq)
            + message::message_field::<Hlc>(6, m.timestamp)
            + message::message_items::<Operation>(7, m.ops)
    }

    open spec fn step(acc: EntryModel, f: FieldModel, depth: u32) -> Option<EntryModel> {
        if f.tag == 1 {
            match f.value {
                ValueModel::Varint(v) => Some(EntryModel { version: v as u32, ..acc }),
                _ => None,
            }
        } else if f.tag == 2 {
            match f.value {
                ValueModel::Bytes(b) => Some(EntryModel { store_id: b, ..acc }),
                _ => None,
            }
        } else if f.tag == 3 {
            match f.value {
                ValueModel::Bytes(b) => Some(EntryModel { prev_hash: b, ..acc }),
                _ => None,
            }
        } else if f.tag == 4 {
            match f.value {
                ValueModel::Bytes(b) => Some(EntryModel { parent_hashes: acc.parent_hashes.push(b), ..acc }),
                _ => None,
            }
        } else if f.tag == 5 {
            match f.value {
                ValueModel::Varint(v) => Some(EntryModel { seq: v, ..acc }),
                _ => None,
            }
        } else if f.tag == 6 {
            match f.value {
                ValueModel::Bytes(b) => match message::embedded::<Hlc>(
                    match acc.timestamp {
                        Some(x) => x,
                        None => Hlc::empty(),
                    },
                    b,
                    depth,
                ) {
                    Some(x) => Some(EntryModel { timestamp: Some(x), ..acc }),
                    None => None,
                },
                _ => None,
            }
        } else if f.tag == 7 {
            match f.value {
                ValueModel::Bytes(b) => match message::embedded::<Operation>(Operation::empty(), b, depth) {
                    Some(x) => Some(EntryModel { ops: acc.ops.push(x), ..acc }),
                    None => None,
                },
                _ => None,
            }
        } else {
            Some(acc)
        }
    }

    proof fn lemma_step(acc: EntryModel, f: FieldModel, depth: u32) {
        if f.tag == 6 {
            message::lemma_sound_is_read::<Hlc>(f.value->Bytes_0, (depth - 1) as u32);
        }
        if f.tag == 7 {
            message::lemma_sound_is_read::<Operation>(f.value->Bytes_0, (depth - 1) as u32);
        }
    }

    fn empty_message() -> (r: Self) {
        let r = Entry { version: 0, store_id: Vec::new(), prev_hash: Vec::new(), parent_hashes: Vec::new(), seq: 0, timestamp: None, ops: Vec::new() };
        assert(r@.parent_hashes =~= Seq::empty());
        assert(r@.ops =~= Seq::empty());
        r
    }

    fn take_field(self, f: &Field, depth: u32) -> (r: Option<Self>) {
        let mut m: Entry = self;
        if f.tag == 1 {
            match &f.value {
                WireValue::Varint(v) => {
                    m.version = *v as u32;
                },
                _ => {
                    return None;
                },
            }
        } else if f.tag == 2 {
            match &f.value {
                WireValue::Bytes(b) => {
                    m.store_id = to_vec(b.as_slice());
                },
                _ => {
                    return None;
                },
            }
        } else if f.tag == 3 {
            match &f.value {
                WireValue::Bytes(b) => {
                    m.prev_hash = to_vec(b.as_slice());
                },
                _ => {
                    return None;
                },
            }
        } else if f.tag == 4 {
            match &f.value {
                WireValue::Bytes(b) => {
                    let item: Vec<u8> = to_vec(b.as_slice());
                    m.parent_hashes.push(item);
                    assert(m@.parent_hashes =~= self@.parent_hashes.push(b@));
                },
                _ => {
                    return None;
                },
            }
        } else if f.tag == 5 {
            match &f.value {
                WireValue::Varint(v) => {
                    m.seq = *v;
                },
                _ => {
                    return None;
                },
            }
        } else if f.tag == 6 {
            match &f.value {
                WireValue::Bytes(b) => {
                    let init = match m.timestamp {
                        Some(x) => x,
                        None => Hlc::empty_message(),
                    };
                    match message::merge_embedded(init, b.as_slice(), depth) {
                        Some(x) => {
                            m.timestamp = Some(x);
                        },
                        None => {
                            return None;
                        },
                    }
                },
                _ => {
                    return None;
                },
            }
        } else if f.tag == 7 {
            match &f.value {
                WireValue::Bytes(b) => {
                    match message::merge_embedded(Operation::empty_message(), b.as_slice(), depth) {
                        Some(item) => {
                            let ghost x = item@;
                            m.ops.push(item);
                            assert(m@.ops =~= self@.ops.push(x));
                        },
                        None => {
                            return None;
                        },
                    }
                },
                _ => {
                    return None;
                },
            }
        }
        Some(m)
    }

    fn duplicate(&self) -> (r: Self) {
        Entry {
            version: self.version,
            store_id: to_vec(self.store_id.as_slice()),
            prev_hash: to_vec(self.prev_hash.as_slice()),
            parent_hashes: message::duplicate_bytes(&self.parent_hashes),
            seq: self.seq,
            timestamp: message::duplicate_message(&self.timestamp),
            ops: message::duplicate_items(&self.ops),
        }
    }

    fn put_fields(&self, out: &mut Vec<u8>) {
        let ghost base = out@;
        let ghost m = self@;
        wire::put_number(1, self.version as u64, out);
        let ghost done = wire::number_field(1, m.version as u64);
        wire::put_bytes(2, self.store_id.as_slice(), out);
        proof {
            message::lemma_append(base, done, wire::bytes_field(2, m.store_id));
        }
        let ghost done = done + wire::bytes_field(2, m.store_id);
        wire::put_bytes(3, self.prev_hash.as_slice(), out);
        proof {
            message::lemma_append(base, done, wire::bytes_field(3, m.prev_hash));
        }
        let ghost done = done + wire::bytes_field(3, m.prev_hash);
        message::put_bytes_items(4, &self.parent_hashes, out);
        proof {
            message::lemma_append(base, done, message::bytes_items(4, m.parent_hashes));
        }
        let ghost done = done + message::bytes_items(4, m.parent_hashes);
        wire::put_number(5, self.seq, out);
        proof {
            message::lemma_append(base, done, wire::number_field(5, m.seq));
        }
        let ghost done = done + wire::number_field(5, m.seq);
        message::put_message(6, &self.timestamp, out);
        proof {
            message::lemma_append(base, done, message::message_field::<Hlc>(6, m.timestamp));
        }
        let ghost done = done + message::message_field::<Hlc>(6, m.timestamp);
        message::put_message_items(7, &self.ops, out);
        proof {
            message::lemma_append(base, done, message::message_items::<Operation>(7, m.ops));
        }
    }
}

impl Clone for Entry {
    fn clone(&self) -> (r: Self)
        ensures
            r@ == self@,
    {
        self.duplicate()
    }
}

/// An [`Entry`] is read back as it was written, provided its encoding has a 64-bit length.
pub proof fn law_entry_round_trip(m: EntryModel)
    requires
        message::encoded::<Entry>(m).len() <= u64::MAX,
    ensures
        message::decoded::<Entry>(message::encoded::<Entry>(m)) == Some(m),
{
    reveal(message::decoded);
    lemma_entry_at(m, wire::NESTING_LIMIT);
}

/// The same, in a message that may have `depth` more levels.
pub proof fn lemma_entry_at(m: EntryModel, depth: u32)
    requires
        depth >= 2,
        message::encoded::<Entry>(m).len() <= u64::MAX,
    ensures
        message::decoded_at::<Entry>(message::encoded::<Entry>(m), depth) == Some(m),
{
    let step = message::step_of::<Entry>(depth);
    let fields = Entry::fields(m);
    let s1 = wire::number_field(1, m.version as u64);
    let s2 = wire::bytes_field(2, m.store_id);
    let s3 = wire::bytes_field(3, m.prev_hash);
    let s4 = message::bytes_items(4, m.parent_hashes);
    let s5 = wire::number_field(5, m.seq);
    let s6 = message::message_field::<Hlc>(6, m.timestamp);
    let s7 = message::message_items::<Operation>(7, m.ops);
    let p1 = s1;
    let p2 = p1 + s2;
    let p3 = p2 + s3;
    let p4 = p3 + s4;
    let p5 = p4 + s5;
    let p6 = p5 + s6;
    let p7 = p6 + s7;
    assert(message::shape_ok(s1));
    assert(message::shape_ok(s2));
    message::lemma_shape_concat(p1, s2);
    assert(message::shape_ok(s3));
    message::lemma_shape_concat(p2, s3);
    assert(message::shape_ok(s4));
    message::lemma_shape_concat(p3, s4);
    assert(message::shape_ok(s5));
    message::lemma_shape_concat(p4, s5);
    assert(message::shape_ok(s6));
    message::lemma_shape_concat(p5, s6);
    assert(message::shape_ok(s7));
    message::lemma_shape_concat(p6, s7);
    message::lemma_fields_ok(fields);
    let a0 = Entry::empty();
    let a1 = EntryModel { version: m.version, ..a0 };
    let a2 = EntryModel { store_id: m.store_id, ..a1 };
    let a3 = EntryModel { prev_hash: m.prev_hash, ..a2 };
    let a4 = EntryModel { parent_hashes: m.parent_hashes, ..a3 };
    let a5 = EntryModel { seq: m.seq, ..a4 };
    let a6 = EntryModel { timestamp: m.timestamp, ..a5 };
    let a7 = EntryModel { ops: m.ops, ..a6 };
    message::lemma_fold_number(a0, 1, m.version as u64, step, a1);
    assert(m.store_id.len() == 0 ==> m.store_id =~= Seq::empty());
    message::lemma_fold_bytes(a1, 2, m.store_id, step, a2);
    wire::lemma_fold_concat(a0, p1, s2, step);
    assert(m.prev_hash.len() == 0 ==> m.prev_hash =~= Seq::empty());
    message::lemma_fold_bytes(a2, 3, m.prev_hash, step, a3);
    wire::lemma_fold_concat(a0, p2, s3, step);
    let acc4 = |i: int| EntryModel { parent_hashes: m.parent_hashes.take(i), ..a3 };
    assert forall|i: int| 0 <= i < s4.len() implies step(acc4(i), #[trigger] s4[i]) == Some(
        acc4(i + 1),
    ) by {
        assert(m.parent_hashes.take(i + 1) =~= m.parent_hashes.take(i).push(m.parent_hashes[i]));
    }
    message::lemma_fold_steps(s4, step, acc4);
    assert(m.parent_hashes.take(0) =~= Seq::empty());
    assert(m.parent_hashes.take(s4.len() as int) =~= m.parent_hashes);
    wire::lemma_fold_concat(a0, p3, s4, step);
    message::lemma_fold_number(a4, 5, m.seq, step, a5);
    wire::lemma_fold_concat(a0, p4, s5, step);
    if let Some(x) = m.timestamp {
        lemma_hlc_at(x, (depth - 1) as u32);
    }
    message::lemma_fold_message::<_, Hlc>(a5, 6, m.timestamp, step, a6);
    wire::lemma_fold_concat(a0, p5, s6, step);
    assert forall|i: int| 0 <= i < m.ops.len() implies message::decoded_at::<Operation>(
        message::encoded::<Operation>(#[trigger] m.ops[i]),
        (depth - 1) as u32,
    ) == Some(m.ops[i]) by {
        assert(fields[p6.len() + i] == s7[i]);
        message::lemma_payload_within(fields, p6.len() + i);
        lemma_operation_at(m.ops[i], (depth - 1) as u32);
    }
    let acc7 = |i: int| EntryModel { ops: m.ops.take(i), ..a6 };
    assert forall|i: int| 0 <= i < s7.len() implies step(acc7(i), #[trigger] s7[i]) == Some(
        acc7(i + 1),
    ) by {
        assert(message::decoded_at::<Operation>(message::encoded::<Operation>(m.ops[i]), (depth - 1) as u32) == Some(m.ops[i]));
        assert(m.ops.take(i + 1) =~= m.ops.take(i).push(m.ops[i]));
    }
    message::lemma_fold_steps(s7, step, acc7);
    assert(m.ops.take(0) =~= Seq::empty());
    assert(m.ops.take(s7.len() as int) =~= m.ops);
    wire::lemma_fold_concat(a0, p6, s7, step);
    message::lemma_round_trip::<Entry>(m, depth);
}

/// An encoded entry with its author's signature.
#[derive(Debug, PartialEq, Eq)]
pub struct SignedEntry {
    pub entry_bytes: Vec<u8>,
    pub signature: Vec<u8>,
    pub author_id: Vec<u8>,
}

/// The model of [`SignedEntry`].
pub struct SignedEntryModel {
    pub entry_bytes: Seq<u8>,
    pub signature: Seq<u8>,
    pub author_id: Seq<u8>,
}

impl View for SignedEntry {
    type V = SignedEntryModel;

    open spec fn view(&self) -> SignedEntryModel {
        SignedEntryModel {
            entry_bytes: self.entry_bytes@,
            signature: self.signature@,
            author_id: self.author_id@,
        }
    }
}

impl Message for SignedEntry {
    open spec fn shape() -> Shape {
        Shape::SignedEntry
    }

    fn shape_of() -> (r: Shape) {
        Shape::SignedEntry
    }

    open spec fn empty() -> SignedEntryModel {
        SignedEntryModel { entry_bytes: Seq::empty(), signature: Seq::empty(), author_id: Seq::empty() }
    }

    open spec fn fields(m: SignedEntryModel) -> Seq<FieldModel> {
        wire::bytes_field(1, m.entry_bytes)
            + wire::bytes_field(2, m.signature)
            + wire::bytes_field(3, m.author_id)
    }

    open spec fn step(acc: SignedEntryModel, f: FieldModel, depth: u32) -> Option<SignedEntryModel> {
        if f.tag == 1 {
            match f.value {
                ValueModel::Bytes(b) => Some(SignedEntryModel { entry_bytes: b, ..acc }),
                _ => None,
            }
        } else if f.tag == 2 {
            match f.value {
                ValueModel::Bytes(b) => Some(SignedEntryModel { signature: b, ..acc }),
                _ => None,
            }
        } else if f.tag == 3 {
            match f.value {
                ValueModel::Bytes(b) => Some(SignedEntryModel { author_id: b, ..acc }),
                _ => None,
            }
        } else {
            Some(acc)
        }
    }

    proof fn lemma_step(acc: SignedEntryModel, f: FieldModel, depth: u32) {
    }

    fn empty_message() -> (r: Self) {
        let r = SignedEntry { entry_bytes: Vec::new(), signature: Vec::new(), author_id: Vec::new() };
        r
    }

    fn take_field(self, f: &Field, depth: u32) -> (r: Option<Self>) {
        let mut m: SignedEntry = self;
        if f.tag == 1 {
            match &f.value {
                WireValue::Bytes(b) => {
                    m.entry_bytes = to_vec(b.as_slice());
                },
                _ => {
                    return None;
                },
            }
        } else if f.tag == 2 {
            match &f.value {
                WireValue::Bytes(b) => {
                    m.signature = to_vec(b.as_slice());
                },
                _ => {
                    return None;
                },
            }
        } else if f.tag == 3 {
            match &f.value {
                WireValue::Bytes(b) => {
                    m.author_id = to_vec(b.as_slice());
                },
                _ => {
                    return None;
                },
            }
        }
        Some(m)
    }

    fn duplicate(&self) -> (r: Self) {
        SignedEntry {
            entry_bytes: to_vec(self.entry_bytes.as_slice()),
            signature: to_vec(self.signature.as_slice()),
            author_id: to_vec(self.author_id.as_slice()),
        }
    }

    fn put_fields(&self, out: &mut Vec<u8>) {
        let ghost base = out@;
        let ghost m = self@;
        wire::put_bytes(1, self.entry_bytes.as_slice(), out);
        let ghost done = wire::bytes_field(1, m.entry_bytes);
        wire::put_bytes(2, self.signature.as_slice(), out);
        proof {
            message::lemma_append(base, done, wire::bytes_field(2, m.signature));
        }
        let ghost done = done + wire::bytes_field(2, m.signature);
        wire::put_bytes(3, self.author_id.as_slice(), out);
        proof {
            message::lemma_append(base, done, wire::bytes_field(3, m.author_id));
        }
    }
}

impl Clone for SignedEntry {
    fn clone(&self) -> (r: Self)
        ensures
            r@ == self@,
    {
        self.duplicate()
    }
}

/// A [`SignedEntry`] is read back as it was written, provided its encoding has a 64-bit length.
pub proof fn law_signed_entry_round_trip(m: SignedEntryModel)
    requires
        message::encoded::<SignedEntry>(m).len() <= u64::MAX,
    ensures
        message::decoded::<SignedEntry>(message::encoded::<SignedEntry>(m)) == Some(m),
{
    reveal(message::decoded);
    lemma_signed_entry_at(m, wire::NESTING_LIMIT);
}

/// The same, in a message that may have `depth` more levels.
pub proof fn lemma_signed_entry_at(m: SignedEntryModel, depth: u32)
    requires
        message::encoded::<SignedEntry>(m).len() <= u64::MAX,
    ensures
        message::decoded_at::<SignedEntry>(message::encoded::<SignedEntry>(m), depth) == Some(m),
{
    let step = message::step_of::<SignedEntry>(depth);
    let fields = SignedEntry::fields(m);
    let s1 = wire::bytes_field(1, m.entry_bytes);
    let s2 = wire::bytes_field(2, m.signature);
    let s3 = wire::bytes_field(3, m.author_id);
    let p1 = s1;
    let p2 = p1 + s2;
    let p3 = p2 + s3;
    assert(message::shape_ok(s1));
    assert(message::shape_ok(s2));
    message::lemma_shape_concat(p1, s2);
    assert(message::shape_ok(s3));
    message::lemma_shape_concat(p2, s3);
    message::lemma_fields_ok(fields);
    let a0 = SignedEntry::empty();
    let a1 = SignedEntryModel { entry_bytes: m.entry_bytes, ..a0 };
    let a2 = SignedEntryModel { signature: m.signature, ..a1 };
    let a3 = SignedEntryModel { author_id: m.author_id, ..a2 };
    assert(m.entry_bytes.len() == 0 ==> m.entry_bytes =~= Seq::empty());
    message::lemma_fold_bytes(a0, 1, m.entry_bytes, step, a1);
    assert(m.signature.len() == 0 ==> m.signature =~= Seq::empty());
    message::lemma_fold_bytes(a1, 2, m.signature, step, a2);
    wire::lemma_fold_concat(a0, p1, s2, step);
    assert(m.author_id.len() == 0 ==> m.author_id =~= Seq::empty());
    message::lemma_fold_bytes(a2, 3, m.author_id, step, a3);
    wire::lemma_fold_concat(a0, p2, s3, step);
    message::lemma_round_trip::<SignedEntry>(m, depth);
}

/// The last entry of an author's chain.
#[derive(Debug, PartialEq, Eq)]
pub struct ChainTip {
    pub seq: u64,
    pub hash: Vec<u8>,
    pub hlc: Option<Hlc>,
}

/// The model of [`ChainTip`].
pub struct ChainTipModel {
    pub seq: u64,
    pub hash: Seq<u8>,
    pub hlc: Option<Hlc>,
}

impl View for ChainTip {
    type V = ChainTipModel;

    open spec fn view(&self) -> ChainTipModel {
        ChainTipModel {
            seq: self.seq,
            hash: self.hash@,
            hlc: model(self.hlc),
        }
    }
}

impl Message for ChainTip {
    open spec fn shape() -> Shape {
        Shape::ChainTip
    }

    fn shape_of() -> (r: Shape) {
        Shape::ChainTip
    }

    open spec fn empty() -> ChainTipModel {
        ChainTipModel { seq: 0, hash: Seq::empty(), hlc: None }
    }

    open spec fn fields(m: ChainTipModel) -> Seq<FieldModel> {
        wire::number_field(1, m.seq)
            + wire::bytes_field(2, m.hash)
            + message::message_field::<Hlc>(3, m.hlc)
    }

    open spec fn step(acc: ChainTipModel, f: FieldModel, depth: u32) -> Option<ChainTipModel> {
        if f.tag == 1 {
            match f.value {
                ValueModel::Varint(v) => Some(ChainTipModel { seq: v, ..acc }),
                _ => None,
            }
        } else if f.tag == 2 {
            match f.value {
                ValueModel::Bytes(b) => Some(ChainTipModel { hash: b, ..acc }),
                _ => None,
            }
        } else if f.tag == 3 {
            match f.value {
                ValueModel::Bytes(b) => match message::embedded::<Hlc>(
                    match acc.hlc {
                        Some(x) => x,
                        None => Hlc::empty(),
                    },
                    b,
                    depth,
                ) {
                    Some(x) => Some(ChainTipModel { hlc: Some(x), ..acc }),
                    None => None,
                },
                _ => None,
            }
        } else {
            Some(acc)
        }
    }

    proof fn lemma_step(acc: ChainTipModel, f: FieldModel, depth: u32) {
        if f.tag == 3 {
            message::lemma_sound_is_read::<Hlc>(f.value->Bytes_0, (depth - 1) as u32);
        }
    }

    fn empty_message() -> (r: Self) {
        let r = ChainTip { seq: 0, hash: Vec::new(), hlc: None };
        r
    }

    fn take_field(self, f: &Field, depth: u32) -> (r: Option<Self>) {
        let mut m: ChainTip = self;
        if f.tag == 1 {
            match &f.value {
                WireValue::Varint(v) => {
                    m.seq = *v;
                },
                _ => {
                    return None;
                },
            }
        } else if f.tag == 2 {
            match &f.value {
                WireValue::Bytes(b) => {
                    m.hash = to_vec(b.as_slice());
                },
                _ => {
                    return None;
                },
            }
        } else if f.tag == 3 {
            match &f.value {
                WireValue::Bytes(b) => {
                    let init = match m.hlc {
                        Some(x) => x,
                        None => Hlc::empty_message(),
                    };
                    match message::merge_embedded(init, b.as_slice(), depth) {
                        Some(x) => {
                            m.hlc = Some(x);
                        },
                        None => {
                            return None;
                        },
                    }
                },
                _ => {
                    return None;
                },
            }
        }
        Some(m)
    }

    fn duplicate(&self) -> (r: Self) {
        ChainTip {
            seq: self.seq,
            hash: to_vec(self.hash.as_slice()),
            hlc: message::duplicate_message(&self.hlc),
        }
    }

    fn put_fields(&self, out: &mut Vec<u8>) {
        let ghost base = out@;
        let ghost m = self@;
        wire::put_number(1, self.seq, out);
        let ghost done = wire::number_field(1, m.seq);
        wire::put_bytes(2, self.hash.as_slice(), out);
        proof {
            message::lemma_append(base, done, wire::bytes_field(2, m.hash));
        }
        let ghost done = done + wire::bytes_field(2, m.hash);
        message::put_message(3, &self.hlc, out);
        proof {
            message::lemma_append(base, done, message::message_field::<Hlc>(3, m.hlc));
        }
    }
}

impl Clone for ChainTip {
    fn clone(&self) -> (r: Self)
        ensures
            r@ == self@,
    {
        self.duplicate()
    }
}

/// A [`ChainTip`] is read back as it was written, provided its encoding has a 64-bit length.
pub proof fn law_chain_tip_round_trip(m: ChainTipModel)
    requires
        message::encoded::<ChainTip>(m).len() <= u64::MAX,
    ensures
        message::decoded::<ChainTip>(message::encoded::<ChainTip>(m)) == Some(m),
{
    reveal(message::decoded);
    lemma_chain_tip_at(m, wire::NESTING_LIMIT);
}

/// The same, in a message that may have `depth` more levels.
pub proof fn lemma_chain_tip_at(m: ChainTipModel, depth: u32)
    requires
        depth >= 1,
        message::encoded::<ChainTip>(m).len() <= u64::MAX,
    ensures
        message::decoded_at::<ChainTip>(message::encoded::<ChainTip>(m), depth) == Some(m),
{
    let step = message::step_of::<ChainTip>(depth);
    let fields = ChainTip::fields(m);
    let s1 = wire::number_field(1, m.seq);
    let s2 = wire::bytes_field(2, m.hash);
    let s3 = message::message_field::<Hlc>(3, m.hlc);
    let p1 = s1;
    let p2 = p1 + s2;
    let p3 = p2 + s3;
    assert(message::shape_ok(s1));
    assert(message::shape_ok(s2));
    message::lemma_shape_concat(p1, s2);
    assert(message::shape_ok(s3));
    message::lemma_shape_concat(p2, s3);
    message::lemma_fields_ok(fields);
    let a0 = ChainTip::empty();
    let a1 = ChainTipModel { seq: m.seq, ..a0 };
    let a2 = ChainTipModel { hash: m.hash, ..a1 };
    let a3 = ChainTipModel { hlc: m.hlc, ..a2 };
    message::lemma_fold_number(a0, 1, m.seq, step, a1);
    assert(m.hash.len() == 0 ==> m.hash =~= Seq::empty());
    message::lemma_fold_bytes(a1, 2, m.hash, step, a2);
    wire::lemma_fold_concat(a0, p1, s2, step);
    if let Some(x) = m.hlc {
        lemma_hlc_at(x, (depth - 1) as u32);
    }
    message::lemma_fold_message::<_, Hlc>(a2, 3, m.hlc, step, a3);
    wire::lemma_fold_concat(a0, p2, s3, step);
    message::lemma_round_trip::<ChainTip>(m, depth);
}

/// One head of a key's history.
#[derive(Debug, PartialEq, Eq)]
pub struct HeadInfo {
    pub value: Vec<u8>,
    pub hlc: Option<Hlc>,
    pub author: Vec<u8>,
    pub hash: Vec<u8>,
    pub tombstone: bool,
}

/// The model of [`HeadInfo`].
pub struct HeadInfoModel {
    pub value: Seq<u8>,
    pub hlc: Option<Hlc>,
    pub author: Seq<u8>,
    pub hash: Seq<u8>,
    pub tombstone: bool,
}

impl View for HeadInfo {
    type V = HeadInfoModel;

    open spec fn view(&self) -> HeadInfoModel {
        HeadInfoModel {
            value: self.value@,
            hlc: model(self.hlc),
            author: self.author@,
            hash: self.hash@,
            tombstone: self.tombstone,
        }
    }
}

impl Message for HeadInfo {
    open spec fn shape() -> Shape {
        Shape::HeadInfo
    }

    fn shape_of() -> (r: Shape) {
        Shape::HeadInfo
    }

    open spec fn empty() -> HeadInfoModel {
        HeadInfoModel { value: Seq::empty(), hlc: None, author: Seq::empty(), hash: Seq::empty(), tombstone: false }
    }

    open spec fn fields(m: HeadInfoModel) -> Seq<FieldModel> {
        wire::bytes_field(1, m.value)
            + message::message_field::<Hlc>(2, m.hlc)
            + wire::bytes_field(3, m.author)
            + wire::bytes_field(4, m.hash)
            + wire::number_field(5, bit(m.tombstone))
    }

    open spec fn step(acc: HeadInfoModel, f: FieldModel, depth: u32) -> Option<HeadInfoModel> {
        if f.tag == 1 {
            match f.value {
                ValueModel::Bytes(b) => Some(HeadInfoModel { value: b, ..acc }),
                _ => None,
            }
        } else if f.tag == 2 {
            match f.value {
                ValueModel::Bytes(b) => match message::embedded::<Hlc>(
                    match acc.hlc {
                        Some(x) => x,
                        None => Hlc::empty(),
                    },
                    b,
                    depth,
                ) {
                    Some(x) => Some(HeadInfoModel { hlc: Some(x), ..acc }),
                    None => None,
                },
                _ => None,
            }
        } else if f.tag == 3 {
            match f.value {
                ValueModel::Bytes(b) => Some(HeadInfoModel { author: b, ..acc }),
                _ => None,
            }
        } else if f.tag == 4 {
            match f.value {
                ValueModel::Bytes(b) => Some(HeadInfoModel { hash: b, ..acc }),
                _ => None,
            }
        } else if f.tag == 5 {
            match f.value {
                ValueModel::Varint(v) => Some(HeadInfoModel { tombstone: v != 0, ..acc }),
                _ => None,
            }
        } else {
            Some(acc)
        }
    }

    proof fn lemma_step(acc: HeadInfoModel, f: FieldModel, depth: u32) {
        if f.tag == 2 {
            message::lemma_sound_is_read::<Hlc>(f.value->Bytes_0, (depth - 1) as u32);
        }
    }

    fn empty_message() -> (r: Self) {
        let r = HeadInfo { value: Vec::new(), hlc: None, author: Vec::new(), hash: Vec::new(), tombstone: false };
        r
    }

    fn take_field(self, f: &Field, depth: u32) -> (r: Option<Self>) {
        let mut m: HeadInfo = self;
        if f.tag == 1 {
            match &f.value {
                WireValue::Bytes(b) => {
                    m.value = to_vec(b.as_slice());
                },
                _ => {
                    return None;
                },
            }
        } else if f.tag == 2 {
            match &f.value {
                WireValue::Bytes(b) => {
                    let init = match m.hlc {
                        Some(x) => x,
                        None => Hlc::empty_message(),
                    };
                    match message::merge_embedded(init, b.as_slice(), depth) {
                        Some(x) => {
                            m.hlc = Some(x);
                        },
                        None => {
                            return None;
                        },
                    }
                },
                _ => {
                    return None;
                },
            }
        } else if f.tag == 3 {
            match &f.value {
                WireValue::Bytes(b) => {
                    m.author = to_vec(b.as_slice());
                },
                _ => {
                    return None;
                },
            }
        } else if f.tag == 4 {
            match &f.value {
                WireValue::Bytes(b) => {
                    m.hash = to_vec(b.as_slice());
                },
                _ => {
                    return None;
                },
            }
        } else if f.tag == 5 {
            match &f.value {
                WireValue::Varint(v) => {
                    m.tombstone = *v != 0;
                },
                _ => {
                    return None;
                },
            }
        }
        Some(m)
    }

    fn duplicate(&self) -> (r: Self) {
        HeadInfo {
            value: to_vec(self.value.as_slice()),
            hlc: message::duplicate_message(&self.hlc),
            author: to_vec(self.author.as_slice()),
            hash: to_vec(self.hash.as_slice()),
            tombstone: self.tombstone,
        }
    }

    fn put_fields(&self, out: &mut Vec<u8>) {
        let ghost base = out@;
        let ghost m = self@;
        wire::put_bytes(1, self.value.as_slice(), out);
        let ghost done = wire::bytes_field(1, m.value);
        message::put_message(2, &self.hlc, out);
        proof {
            message::lemma_append(base, done, message::message_field::<Hlc>(2, m.hlc));
        }
        let ghost done = done + message::message_field::<Hlc>(2, m.hlc);
        wire::put_bytes(3, self.author.as_slice(), out);
        proof {
            message::lemma_append(base, done, wire::bytes_field(3, m.author));
        }
        let ghost done = done + wire::bytes_field(3, m.author);
        wire::put_bytes(4, self.hash.as_slice(), out);
        proof {
            message::lemma_append(base, done, wire::bytes_field(4, m.hash));
        }
        let ghost done = done + wire::bytes_field(4, m.hash);
        wire::put_number(5, if self.tombstone {
            1
        } else {
            0
        }, out);
        proof {
            message::lemma_append(base, done, wire::number_field(5, bit(m.tombstone)));
        }
    }
}

impl Clone for HeadInfo {
    fn clone(&self) -> (r: Self)
        ensures
            r@ == self@,
    {
        self.duplicate()
    }
}

/// A [`HeadInfo`] is read back as it was written, provided its encoding has a 64-bit length.
pub proof fn law_head_info_round_trip(m: HeadInfoModel)
    requires
        message::encoded::<HeadInfo>(m).len() <= u64::MAX,
    ensures
        message::decoded::<HeadInfo>(message::encoded::<HeadInfo>(m)) == Some(m),
{
    reveal(message::decoded);
    lemma_head_info_at(m, wire::NESTING_LIMIT);
}

/// The same, in a message that may have `depth` more levels.
pub proof fn lemma_head_info_at(m: HeadInfoModel, depth: u32)
    requires
        depth >= 1,
        message::encoded::<HeadInfo>(m).len() <= u64::MAX,
    ensures
        message::decoded_at::<HeadInfo>(message::encoded::<HeadInfo>(m), depth) == Some(m),
{
    let step = message::step_of::<HeadInfo>(depth);
    let fields = HeadInfo::fields(m);
    let s1 = wire::bytes_field(1, m.value);
    let s2 = message::message_field::<Hlc>(2, m.hlc);
    let s3 = wire::bytes_field(3, m.author);
    let s4 = wire::bytes_field(4, m.hash);
    let s5 = wire::number_field(5, bit(m.tombstone));
    let p1 = s1;
    let p2 = p1 + s2;
    let p3 = p2 + s3;
    let p4 = p3 + s4;
    let p5 = p4 + s5;
    assert(message::shape_ok(s1));
    assert(message::shape_ok(s2));
    message::lemma_shape_concat(p1, s2);
    assert(message::shape_ok(s3));
    message::lemma_shape_concat(p2, s3);
    assert(message::shape_ok(s4));
    message::lemma_shape_concat(p3, s4);
    assert(message::shape_ok(s5));
    message::lemma_shape_concat(p4, s5);
    message::lemma_fields_ok(fields);
    let a0 = HeadInfo::empty();
    let a1 = HeadInfoModel { value: m.value, ..a0 };
    let a2 = HeadInfoModel { hlc: m.hlc, ..a1 };
    let a3 = HeadInfoModel { author: m.author, ..a2 };
    let a4 = HeadInfoModel { hash: m.hash, ..a3 };
    let a5 = HeadInfoModel { tombstone: m.tombstone, ..a4 };
    assert(m.value.len() == 0 ==> m.value =~= Seq::empty());
    message::lemma_fold_bytes(a0, 1, m.value, step, a1);
    if let Some(x) = m.hlc {
        lemma_hlc_at(x, (depth - 1) as u32);
    }
    message::lemma_fold_message::<_, Hlc>(a1, 2, m.hlc, step, a2);
    wire::lemma_fold_concat(a0, p1, s2, step);
    assert(m.author.len() == 0 ==> m.author =~= Seq::empty());
    message::lemma_fold_bytes(a2, 3, m.author, step, a3);
    wire::lemma_fold_concat(a0, p2, s3, step);
    assert(m.hash.len() == 0 ==> m.hash =~= Seq::empty());
    message::lemma_fold_bytes(a3, 4, m.hash, step, a4);
    wire::lemma_fold_concat(a0, p3, s4, step);
    message::lemma_fold_number(a4, 5, bit(m.tombstone), step, a5);
    wire::lemma_fold_concat(a0, p4, s5, step);
    message::lemma_round_trip::<HeadInfo>(m, depth);
}

/// The heads of a key's history.
#[derive(Debug, PartialEq, Eq)]
pub struct HeadList {
    pub heads: Vec<HeadInfo>,
}

/// The model of [`HeadList`].
pub struct HeadListModel {
    pub heads: Seq<HeadInfoModel>,
}

impl View for HeadList {
    type V = HeadListModel;

    open spec fn view(&self) -> HeadListModel {
        HeadListModel {
            heads: models(self.heads@),
        }
    }
}

impl Message for HeadList {
    open spec fn shape() -> Shape {
        Shape::HeadList
    }

    fn shape_of() -> (r: Shape) {
        Shape::HeadList
    }

    open spec fn empty() -> HeadListModel {
        HeadListModel { heads: Seq::empty() }
    }

    open spec fn fields(m: HeadListModel) -> Seq<FieldModel> {
        message::message_items::<HeadInfo>(1, m.heads)
    }

    open spec fn step(acc: HeadListModel, f: FieldModel, depth: u32) -> Option<HeadListModel> {
        if f.tag == 1 {
            match f.value {
                ValueModel::Bytes(b) => match message::embedded::<HeadInfo>(HeadInfo::empty(), b, depth) {
                    Some(x) => Some(HeadListModel { heads: acc.heads.push(x), ..acc }),
                    None => None,
                },
                _ => None,
            }
        } else {
            Some(acc)
        }
    }

    proof fn lemma_step(acc: HeadListModel, f: FieldModel, depth: u32) {
        if f.tag == 1 {
            message::lemma_sound_is_read::<HeadInfo>(f.value->Bytes_0, (depth - 1) as u32);
        }
    }

    fn empty_message() -> (r: Self) {
        let r = HeadList { heads: Vec::new() };
        assert(r@.heads =~= Seq::empty());
        r
    }

    fn take_field(self, f: &Field, depth: u32) -> (r: Option<Self>) {
        let mut m: HeadList = self;
        if f.tag == 1 {
            match &f.value {
                WireValue::Bytes(b) => {
                    match message::merge_embedded(HeadInfo::empty_message(), b.as_slice(), depth) {
                        Some(item) => {
                            let ghost x = item@;
                            m.heads.push(item);
                            assert(m@.heads =~= self@.heads.push(x));
                        },
                        None => {
                            return None;
                        },
                    }
                },
                _ => {
                    return None;
                },
            }
        }
        Some(m)
    }

    fn duplicate(&self) -> (r: Self) {
        HeadList {
            heads: message::duplicate_items(&self.heads),
        }
    }

    fn put_fields(&self, out: &mut Vec<u8>) {
        let ghost base = out@;
        let ghost m = self@;
        message::put_message_items(1, &self.heads, out);
        let ghost done = message::message_items::<HeadInfo>(1, m.heads);
    }
}

impl Clone for HeadList {
    fn clone(&self) -> (r: Self)
        ensures
            r@ == self@,
    {
        self.duplicate()
    }
}

/// A [`HeadList`] is read back as it was written, provided its encoding has a 64-bit length.
pub proof fn law_head_list_round_trip(m: HeadListModel)
    requires
        message::encoded::<HeadList>(m).len() <= u64::MAX,
    ensures
        message::decoded::<HeadList>(message::encoded::<HeadList>(m)) == Some(m),
{
    reveal(message::decoded);
    lemma_head_list_at(m, wire::NESTING_LIMIT);
}

/// The same, in a message that may have `depth` more levels.
pub proof fn lemma_head_list_at(m: HeadListModel, depth: u32)
    requires
        depth >= 2,
        message::encoded::<HeadList>(m).len() <= u64::MAX,
    ensures
        message::decoded_at::<HeadList>(message::encoded::<HeadList>(m), depth) == Some(m),
{
    let step = message::step_of::<HeadList>(depth);
    let fields = HeadList::fields(m);
    let s1 = message::message_items::<HeadInfo>(1, m.heads);
    let p1 = s1;
    assert(message::shape_ok(s1));
    message::lemma_fields_ok(fields);
    let a0 = HeadList::empty();
    let a1 = HeadListModel { heads: m.heads, ..a0 };
    assert forall|i: int| 0 <= i < m.heads.len() implies message::decoded_at::<HeadInfo>(
        message::encoded::<HeadInfo>(#[trigger] m.heads[i]),
        (depth - 1) as u32,
    ) == Some(m.heads[i]) by {
        assert(fields[0 + i] == s1[i]);
        message::lemma_payload_within(fields, 0 + i);
        lemma_head_info_at(m.heads[i], (depth - 1) as u32);
    }
    let acc1 = |i: int| HeadListModel { heads: m.heads.take(i), ..a0 };
    assert forall|i: int| 0 <= i < s1.len() implies step(acc1(i), #[trigger] s1[i]) == Some(
        acc1(i + 1),
    ) by {
        assert(message::decoded_at::<HeadInfo>(message::encoded::<HeadInfo>(m.heads[i]), (depth - 1) as u32) == Some(m.heads[i]));
        assert(m.heads.take(i + 1) =~= m.heads.take(i).push(m.heads[i]));
    }
    message::lemma_fold_steps(s1, step, acc1);
    assert(m.heads.take(0) =~= Seq::empty());
    assert(m.heads.take(s1.len() as int) =~= m.heads);
    message::lemma_round_trip::<HeadList>(m, depth);
}

/// One record of a log: an encoded signed entry and the hash of its bytes.
#[derive(Debug, PartialEq, Eq)]
pub struct LogRecord {
    pub hash: Vec<u8>,
    pub entry_bytes: Vec<u8>,
}

/// The model of [`LogRecord`].
pub struct LogRecordModel {
    pub hash: Seq<u8>,
    pub entry_bytes: Seq<u8>,
}

impl View for LogRecord {
    type V = LogRecordModel;

    open spec fn view(&self) -> LogRecordModel {
        LogRecordModel {
            hash: self.hash@,
            entry_bytes: self.entry_bytes@,
        }
    }
}

impl Message for LogRecord {
    open spec fn shape() -> Shape {
        Shape::LogRecord
    }

    fn shape_of() -> (r: Shape) {
        Shape::LogRecord
    }

    open spec fn empty() -> LogRecordModel {
        LogRecordModel { hash: Seq::empty(), entry_bytes: Seq::empty() }
    }

    open spec fn fields(m: LogRecordModel) -> Seq<FieldModel> {
        wire::bytes_field(1, m.hash)
            + wire::bytes_field(2, m.entry_bytes)
    }

    open spec fn step(acc: LogRecordModel, f: FieldModel, depth: u32) -> Option<LogRecordModel> {
        if f.tag == 1 {
            match f.value {
                ValueModel::Bytes(b) => Some(LogRecordModel { hash: b, ..acc }),
                _ => None,
            }
        } else if f.tag == 2 {
            match f.value {
                ValueModel::Bytes(b) => Some(LogRecordModel { entry_bytes: b, ..acc }),
                _ => None,
            }
        } else {
            Some(acc)
        }
    }

    proof fn lemma_step(acc: LogRecordModel, f: FieldModel, depth: u32) {
    }

    fn empty_message() -> (r: Self) {
        let r = LogRecord { hash: Vec::new(), entry_bytes: Vec::new() };
        r
    }

    fn take_field(self, f: &Field, depth: u32) -> (r: Option<Self>) {
        let mut m: LogRecord = self;
        if f.tag == 1 {
            match &f.value {
                WireValue::Bytes(b) => {
                    m.hash = to_vec(b.as_slice());
                },
                _ => {
                    return None;
                },
            }
        } else if f.tag == 2 {
            match &f.value {
                WireValue::Bytes(b) => {
                    m.entry_bytes = to_vec(b.as_slice());
                },
                _ => {
                    return None;
                },
            }
        }
        Some(m)
    }

    fn duplicate(&self) -> (r: Self) {
        LogRecord {
            hash: to_vec(self.hash.as_slice()),
            entry_bytes: to_vec(self.entry_bytes.as_slice()),
        }
    }

    fn put_fields(&self, out: &mut Vec<u8>) {
        let ghost base = out@;
        let ghost m = self@;
        wire::put_bytes(1, self.hash.as_slice(), out);
        let ghost done = wire::bytes_field(1, m.hash);
        wire::put_bytes(2, self.entry_bytes.as_slice(), out);
        proof {
            message::lemma_append(base, done, wire::bytes_field(2, m.entry_bytes));
        }
    }
}

impl Clone for LogRecord {
    fn clone(&self) -> (r: Self)
        ensures
            r@ == self@,
    {
        self.duplicate()
    }
}

/// A [`LogRecord`] is read back as it was written, provided its encoding has a 64-bit length.
pub proof fn law_log_record_round_trip(m: LogRecordModel)
    requires
        message::encoded::<LogRecord>(m).len() <= u64::MAX,
    ensures
        message::decoded::<LogRecord>(message::encoded::<LogRecord>(m)) == Some(m),
{
    reveal(message::decoded);
    lemma_log_record_at(m, wire::NESTING_LIMIT);
}

/// The same, in a message that may have `depth` more levels.
pub proof fn lemma_log_record_at(m: LogRecordModel, depth: u32)
    requires
        message::encoded::<LogRecord>(m).len() <= u64::MAX,
    ensures
        message::decoded_at::<LogRecord>(message::encoded::<LogRecord>(m), depth) == Some(m),
{
    let step = message::step_of::<LogRecord>(depth);
    let fields = LogRecord::fields(m);
    let s1 = wire::bytes_field(1, m.hash);
    let s2 = wire::bytes_field(2, m.entry_bytes);
    let p1 = s1;
    let p2 = p1 + s2;
    assert(message::shape_ok(s1));
    assert(message::shape_ok(s2));
    message::lemma_shape_concat(p1, s2);
    message::lemma_fields_ok(fields);
    let a0 = LogRecord::empty();
    let a1 = LogRecordModel { hash: m.hash, ..a0 };
    let a2 = LogRecordModel { entry_bytes: m.entry_bytes, ..a1 };
    assert(m.hash.len() == 0 ==> m.hash =~= Seq::empty());
    message::lemma_fold_bytes(a0, 1, m.hash, step, a1);
    assert(m.entry_bytes.len() == 0 ==> m.entry_bytes =~= Seq::empty());
    message::lemma_fold_bytes(a1, 2, m.entry_bytes, step, a2);
    wire::lemma_fold_concat(a0, p1, s2, step);
    message::lemma_round_trip::<LogRecord>(m, depth);
}

/// An entry that waits for its predecessor.
#[derive(Debug, PartialEq, Eq)]
pub struct OrphanedEntry {
    pub seq: u64,
    pub entry: Option<SignedEntry>,
    pub received_at: u64,
}

/// The model of [`OrphanedEntry`].
pub struct OrphanedEntryModel {
    pub seq: u64,
    pub entry: Option<SignedEntryModel>,
    pub received_at: u64,
}

impl View for OrphanedEntry {
    type V = OrphanedEntryModel;

    open spec fn view(&self) -> OrphanedEntryModel {
        OrphanedEntryModel {
            seq: self.seq,
            entry: model(self.entry),
            received_at: self.received_at,
        }
    }
}

impl Message for OrphanedEntry {
    open spec fn shape() -> Shape {
        Shape::OrphanedEntry
    }

    fn shape_of() -> (r: Shape) {
        Shape::OrphanedEntry
    }

    open spec fn empty() -> OrphanedEntryModel {
        OrphanedEntryModel { seq: 0, entry: None, received_at: 0 }
    }

    open spec fn fields(m: OrphanedEntryModel) -> Seq<FieldModel> {
        wire::number_field(1, m.seq)
            + message::message_field::<SignedEntry>(2, m.entry)
            + wire::number_field(3, m.received_at)
    }

    open spec fn step(acc: OrphanedEntryModel, f: FieldModel, depth: u32) -> Option<OrphanedEntryModel> {
        if f.tag == 1 {
            match f.value {
                ValueModel::Varint(v) => Some(OrphanedEntryModel { seq: v, ..acc }),
                _ => None,
            }
        } else if f.tag == 2 {
            match f.value {
                ValueModel::Bytes(b) => match message::embedded::<SignedEntry>(
                    match acc.entry {
                        Some(x) => x,
                        None => SignedEntry::empty(),
                    },
                    b,
                    depth,
                ) {
                    Some(x) => Some(OrphanedEntryModel { entry: Some(x), ..acc }),
                    None => None,
                },
                _ => None,
            }
        } else if f.tag == 3 {
            match f.value {
                ValueModel::Varint(v) => Some(OrphanedEntryModel { received_at: v, ..acc }),
                _ => None,
            }
        } else {
            Some(acc)
        }
    }

    proof fn lemma_step(acc: OrphanedEntryModel, f: FieldModel, depth: u32) {
        if f.tag == 2 {
            message::lemma_sound_is_read::<SignedEntry>(f.value->Bytes_0, (depth - 1) as u32);
        }
    }

    fn empty_message() -> (r: Self) {
        let r = OrphanedEntry { seq: 0, entry: None, received_at: 0 };
        r
    }

    fn take_field(self, f: &Field, depth: u32) -> (r: Option<Self>) {
        let mut m: OrphanedEntry = self;
        if f.tag == 1 {
            match &f.value {
                WireValue::Varint(v) => {
                    m.seq = *v;
                },
                _ => {
                    return None;
                },
            }
        } else if f.tag == 2 {
            match &f.value {
                WireValue::Bytes(b) => {
                    let init = match m.entry {
                        Some(x) => x,
                        None => SignedEntry::empty_message(),
                    };
                    match message::merge_embedded(init, b.as_slice(), depth) {
                        Some(x) => {
                            m.entry = Some(x);
                        },
                        None => {
                            return None;
                        },
                    }
                },
                _ => {
                    return None;
                },
            }
        } else if f.tag == 3 {
            match &f.value {
                WireValue::Varint(v) => {
                    m.received_at = *v;
                },
                _ => {
                    return None;
                },
            }
        }
        Some(m)
    }

    fn duplicate(&self) -> (r: Self) {
        OrphanedEntry {
            seq: self.seq,
            entry: message::duplicate_message(&self.entry),
            received_at: self.received_at,
        }
    }

    fn put_fields(&self, out: &mut Vec<u8>) {
        let ghost base = out@;
        let ghost m = self@;
        wire::put_number(1, self.seq, out);
        let ghost done = wire::number_field(1, m.seq);
        message::put_message(2, &self.entry, out);
        proof {
            message::lemma_append(base, done, message::message_field::<SignedEntry>(2, m.entry));
        }
        let ghost done = done + message::message_field::<SignedEntry>(2, m.entry);
        wire::put_number(3, self.received_at, out);
        proof {
            message::lemma_append(base, done, wire::number_field(3, m.received_at));
        }
    }
}

impl Clone for OrphanedEntry {
    fn clone(&self) -> (r: Self)
        ensures
            r@ == self@,
    {
        self.duplicate()
    }
}

/// An [`OrphanedEntry`] is read back as it was written, provided its encoding has a 64-bit length.
pub proof fn law_orphaned_entry_round_trip(m: OrphanedEntryModel)
    requires
        message::encoded::<OrphanedEntry>(m).len() <= u64::MAX,
    ensures
        message::decoded::<OrphanedEntry>(message::encoded::<OrphanedEntry>(m)) == Some(m),
{
    reveal(message::decoded);
    lemma_orphaned_entry_at(m, wire::NESTING_LIMIT);
}

/// The same, in a message that may have `depth` more levels.
pub proof fn lemma_orphaned_entry_at(m: OrphanedEntryModel, depth: u32)
    requires
        depth >= 1,
        message::encoded::<OrphanedEntry>(m).len() <= u64::MAX,
    ensures
        message::decoded_at::<OrphanedEntry>(message::encoded::<OrphanedEntry>(m), depth) == Some(m),
{
    let step = message::step_of::<OrphanedEntry>(depth);
    let fields = OrphanedEntry::fields(m);
    let s1 = wire::number_field(1, m.seq);
    let s2 = message::message_field::<SignedEntry>(2, m.entry);
    let s3 = wire::number_field(3, m.received_at);
    let p1 = s1;
    let p2 = p1 + s2;
    let p3 = p2 + s3;
    assert(message::shape_ok(s1));
    assert(message::shape_ok(s2));
    message::lemma_shape_concat(p1, s2);
    assert(message::shape_ok(s3));
    message::lemma_shape_concat(p2, s3);
    message::lemma_fields_ok(fields);
    let a0 = OrphanedEntry::empty();
    let a1 = OrphanedEntryModel { seq: m.seq, ..a0 };
    let a2 = OrphanedEntryModel { entry: m.entry, ..a1 };
    let a3 = OrphanedEntryModel { received_at: m.received_at, ..a2 };
    message::lemma_fold_number(a0, 1, m.seq, step, a1);
    if let Some(x) = m.entry {
        assert(fields[p1.len() as int] == wire::item_field(2, message::encoded::<SignedEntry>(x)));
        message::lemma_payload_within(fields, p1.len() as int);
        lemma_signed_entry_at(x, (depth - 1) as u32);
    }
    message::lemma_fold_message::<_, SignedEntry>(a1, 2, m.entry, step, a2);
    wire::lemma_fold_concat(a0, p1, s2, step);
    message::lemma_fold_number(a2, 3, m.received_at, step, a3);
    wire::lemma_fold_concat(a0, p2, s3, step);
    message::lemma_round_trip::<OrphanedEntry>(m, depth);
}

/// An entry that waits for one of its parents.
#[derive(Debug, PartialEq, Eq)]
pub struct DagOrphanedEntry {
    pub key: Vec<u8>,
    pub entry: Option<SignedEntry>,
}

/// The model of [`DagOrphanedEntry`].
pub struct DagOrphanedEntryModel {
    pub key: Seq<u8>,
    pub entry: Option<SignedEntryModel>,
}

impl View for DagOrphanedEntry {
    type V = DagOrphanedEntryModel;

    open spec fn view(&self) -> DagOrphanedEntryModel {
        DagOrphanedEntryModel {
            key: self.key@,
            entry: model(self.entry),
        }
    }
}

impl Message for DagOrphanedEntry {
    open spec fn shape() -> Shape {
        Shape::DagOrphanedEntry
    }

    fn shape_of() -> (r: Shape) {
        Shape::DagOrphanedEntry
    }

    open spec fn empty() -> DagOrphanedEntryModel {
        DagOrphanedEntryModel { key: Seq::empty(), entry: None }
    }

    open spec fn fields(m: DagOrphanedEntryModel) -> Seq<FieldModel> {
        wire::bytes_field(1, m.key)
            + message::message_field::<SignedEntry>(2, m.entry)
    }

    open spec fn step(acc: DagOrphanedEntryModel, f: FieldModel, depth: u32) -> Option<DagOrphanedEntryModel> {
        if f.tag == 1 {
            match f.value {
                ValueModel::Bytes(b) => Some(DagOrphanedEntryModel { key: b, ..acc }),
                _ => None,
            }
        } else if f.tag == 2 {
            match f.value {
                ValueModel::Bytes(b) => match message::embedded::<SignedEntry>(
                    match acc.entry {
                        Some(x) => x,
                        None => SignedEntry::empty(),
                    },
                    b,
                    depth,
                ) {
                    Some(x) => Some(DagOrphanedEntryModel { entry: Some(x), ..acc }),
                    None => None,
                },
                _ => None,
            }
        } else {
            Some(acc)
        }
    }

    proof fn lemma_step(acc: DagOrphanedEntryModel, f: FieldModel, depth: u32) {
        if f.tag == 2 {
            message::lemma_sound_is_read::<SignedEntry>(f.value->Bytes_0, (depth - 1) as u32);
        }
    }

    fn empty_message() -> (r: Self) {
        let r = DagOrphanedEntry { key: Vec::new(), entry: None };
        r
    }

    fn take_field(self, f: &Field, depth: u32) -> (r: Option<Self>) {
        let mut m: DagOrphanedEntry = self;
        if f.tag == 1 {
            match &f.value {
                WireValue::Bytes(b) => {
                    m.key = to_vec(b.as_slice());
                },
                _ => {
                    return None;
                },
            }
        } else if f.tag == 2 {
            match &f.value {
                WireValue::Bytes(b) => {
                    let init = match m.entry {
                        Some(x) => x,
                        None => SignedEntry::empty_message(),
                    };
                    match message::merge_embedded(init, b.as_slice(), depth) {
                        Some(x) => {
                            m.entry = Some(x);
                        },
                        None => {
                            return None;
                        },
                    }
                },
                _ => {
                    return None;
                },
            }
        }
        Some(m)
    }

    fn duplicate(&self) -> (r: Self) {
        DagOrphanedEntry {
            key: to_vec(self.key.as_slice()),
            entry: message::duplicate_message(&self.entry),
        }
    }

    fn put_fields(&self, out: &mut Vec<u8>) {
        let ghost base = out@;
        let ghost m = self@;
        wire::put_bytes(1, self.key.as_slice(), out);
        let ghost done = wire::bytes_field(1, m.key);
        message::put_message(2, &self.entry, out);
        proof {
            message::lemma_append(base, done, message::message_field::<SignedEntry>(2, m.entry));
        }
    }
}

impl Clone for DagOrphanedEntry {
    fn clone(&self) -> (r: Self)
        ensures
            r@ == self@,
    {
        self.duplicate()
    }
}

/// A [`DagOrphanedEntry`] is read back as it was written, provided its encoding has a 64-bit length.
pub proof fn law_dag_orphaned_entry_round_trip(m: DagOrphanedEntryModel)
    requires
        message::encoded::<DagOrphanedEntry>(m).len() <= u64::MAX,
    ensures
        message::decoded::<DagOrphanedEntry>(message::encoded::<DagOrphanedEntry>(m)) == Some(m),
{
    reveal(message::decoded);
    lemma_dag_orphaned_entry_at(m, wire::NESTING_LIMIT);
}

/// The same, in a message that may have `depth` more levels.
pub proof fn lemma_dag_orphaned_entry_at(m: DagOrphanedEntryModel, depth: u32)
    requires
        depth >= 1,
        message::encoded::<DagOrphanedEntry>(m).len() <= u64::MAX,
    ensures
        message::decoded_at::<DagOrphanedEntry>(message::encoded::<DagOrphanedEntry>(m), depth) == Some(m),
{
    let step = message::step_of::<DagOrphanedEntry>(depth);
    let fields = DagOrphanedEntry::fields(m);
    let s1 = wire::bytes_field(1, m.key);
    let s2 = message::message_field::<SignedEntry>(2, m.entry);
    let p1 = s1;
    let p2 = p1 + s2;
    assert(message::shape_ok(s1));
    assert(message::shape_ok(s2));
    message::lemma_shape_concat(p1, s2);
    message::lemma_fields_ok(fields);
    let a0 = DagOrphanedEntry::empty();
    let a1 = DagOrphanedEntryModel { key: m.key, ..a0 };
    let a2 = DagOrphanedEntryModel { entry: m.entry, ..a1 };
    assert(m.key.len() == 0 ==> m.key =~= Seq::empty());
    message::lemma_fold_bytes(a0, 1, m.key, step, a1);
    if let Some(x) = m.entry {
        assert(fields[p1.len() as int] == wire::item_field(2, message::encoded::<SignedEntry>(x)));
        message::lemma_payload_within(fields, p1.len() as int);
        lemma_signed_entry_at(x, (depth - 1) as u32);
    }
    message::lemma_fold_message::<_, SignedEntry>(a1, 2, m.entry, step, a2);
    wire::lemma_fold_concat(a0, p1, s2, step);
    message::lemma_round_trip::<DagOrphanedEntry>(m, depth);
}

/// What is known of an author's chain.
#[derive(Debug, PartialEq, Eq)]
pub struct AuthorState {
    pub seq: u64,
    pub hash: Vec<u8>,
    pub hlc: Option<Hlc>,
}

/// The model of [`AuthorState`].
pub struct AuthorStateModel {
    pub seq: u64,
    pub hash: Seq<u8>,
    pub hlc: Option<Hlc>,
}

impl View for AuthorState {
    type V = AuthorStateModel;

    open spec fn view(&self) -> AuthorStateModel {
        AuthorStateModel {
            seq: self.seq,
            hash: self.hash@,
            hlc: model(self.hlc),
        }
    }
}

impl Message for AuthorState {
    open spec fn shape() -> Shape {
        Shape::AuthorState
    }

    fn shape_of() -> (r: Shape) {
        Shape::AuthorState
    }

    open spec fn empty() -> AuthorStateModel {
        AuthorStateModel { seq: 0, hash: Seq::empty(), hlc: None }
    }

    open spec fn fields(m: AuthorStateModel) -> Seq<FieldModel> {
        wire::number_field(1, m.seq)
            + wire::bytes_field(2, m.hash)
            + message::message_field::<Hlc>(3, m.hlc)
    }

    open spec fn step(acc: AuthorStateModel, f: FieldModel, depth: u32) -> Option<AuthorStateModel> {
        if f.tag == 1 {
            match f.value {
                ValueModel::Varint(v) => Some(AuthorStateModel { seq: v, ..acc }),
                _ => None,
            }
        } else if f.tag == 2 {
            match f.value {
                ValueModel::Bytes(b) => Some(AuthorStateModel { hash: b, ..acc }),
                _ => None,
            }
        } else if f.tag == 3 {
            match f.value {
                ValueModel::Bytes(b) => match message::embedded::<Hlc>(
                    match acc.hlc {
                        Some(x) => x,
                        None => Hlc::empty(),
                    },
                    b,
                    depth,
                ) {
                    Some(x) => Some(AuthorStateModel { hlc: Some(x), ..acc }),
                    None => None,
                },
                _ => None,
            }
        } else {
            Some(acc)
        }
    }

    proof fn lemma_step(acc: AuthorStateModel, f: FieldModel, depth: u32) {
        if f.tag == 3 {
            message::lemma_sound_is_read::<Hlc>(f.value->Bytes_0, (depth - 1) as u32);
        }
    }

    fn empty_message() -> (r: Self) {
        let r = AuthorState { seq: 0, hash: Vec::new(), hlc: None };
        r
    }

    fn take_field(self, f: &Field, depth: u32) -> (r: Option<Self>) {
        let mut m: AuthorState = self;
        if f.tag == 1 {
            match &f.value {
                WireValue::Varint(v) => {
                    m.seq = *v;
                },
                _ => {
                    return None;
                },
            }
        } else if f.tag == 2 {
            match &f.value {
                WireValue::Bytes(b) => {
                    m.hash = to_vec(b.as_slice());
                },
                _ => {
                    return None;
                },
            }
        } else if f.tag == 3 {
            match &f.value {
                WireValue::Bytes(b) => {
                    let init = match m.hlc {
                        Some(x) => x,
                        None => Hlc::empty_message(),
                    };
                    match message::merge_embedded(init, b.as_slice(), depth) {
                        Some(x) => {
                            m.hlc = Some(x);
                        },
                        None => {
                            return None;
                        },
                    }
                },
                _ => {
                    return None;
                },
            }
        }
        Some(m)
    }

    fn duplicate(&self) -> (r: Self) {
        AuthorState {
            seq: self.seq,
            hash: to_vec(self.hash.as_slice()),
            hlc: message::duplicate_message(&self.hlc),
        }
    }

    fn put_fields(&self, out: &mut Vec<u8>) {
        let ghost base = out@;
        let ghost m = self@;
        wire::put_number(1, self.seq, out);
        let ghost done = wire::number_field(1, m.seq);
        wire::put_bytes(2, self.hash.as_slice(), out);
        proof {
            message::lemma_append(base, done, wire::bytes_field(2, m.hash));
        }
        let ghost done = done + wire::bytes_field(2, m.hash);
        message::put_message(3, &self.hlc, out);
        proof {
            message::lemma_append(base, done, message::message_field::<Hlc>(3, m.hlc));
        }
    }
}

impl Clone for AuthorState {
    fn clone(&self) -> (r: Self)
        ensures
            r@ == self@,
    {
        self.duplicate()
    }
}

/// An [`AuthorState`] is read back as it was written, provided its encoding has a 64-bit length.
pub proof fn law_author_state_round_trip(m: AuthorStateModel)
    requires
        message::encoded::<AuthorState>(m).len() <= u64::MAX,
    ensures
        message::decoded::<AuthorState>(message::encoded::<AuthorState>(m)) == Some(m),
{
    reveal(message::decoded);
    lemma_author_state_at(m, wire::NESTING_LIMIT);
}

/// The same, in a message that may have `depth` more levels.
pub proof fn lemma_author_state_at(m: AuthorStateModel, depth: u32)
    requires
        depth >= 1,
        message::encoded::<AuthorState>(m).len() <= u64::MAX,
    ensures
        message::decoded_at::<AuthorState>(message::encoded::<AuthorState>(m), depth) == Some(m),
{
    let step = message::step_of::<AuthorState>(depth);
    let fields = AuthorState::fields(m);
    let s1 = wire::number_field(1, m.seq);
    let s2 = wire::bytes_field(2, m.hash);
    let s3 = message::message_field::<Hlc>(3, m.hlc);
    let p1 = s1;
    let p2 = p1 + s2;
    let p3 = p2 + s3;
    assert(message::shape_ok(s1));
    assert(message::shape_ok(s2));
    message::lemma_shape_concat(p1, s2);
    assert(message::shape_ok(s3));
    message::lemma_shape_concat(p2, s3);
    message::lemma_fields_ok(fields);
    let a0 = AuthorState::empty();
    let a1 = AuthorStateModel { seq: m.seq, ..a0 };
    let a2 = AuthorStateModel { hash: m.hash, ..a1 };
    let a3 = AuthorStateModel { hlc: m.hlc, ..a2 };
    message::lemma_fold_number(a0, 1, m.seq, step, a1);
    assert(m.hash.len() == 0 ==> m.hash =~= Seq::empty());
    message::lemma_fold_bytes(a1, 2, m.hash, step, a2);
    wire::lemma_fold_concat(a0, p1, s2, step);
    if let Some(x) = m.hlc {
        lemma_hlc_at(x, (depth - 1) as u32);
    }
    message::lemma_fold_message::<_, Hlc>(a2, 3, m.hlc, step, a3);
    wire::lemma_fold_concat(a0, p2, s3, step);
    message::lemma_round_trip::<AuthorState>(m, depth);
}

/// The state of one author's chain.
#[derive(Debug, PartialEq, Eq)]
pub struct SyncAuthor {
    pub author_id: Vec<u8>,
    pub state: Option<AuthorState>,
}

/// The model of [`SyncAuthor`].
pub struct SyncAuthorModel {
    pub author_id: Seq<u8>,
    pub state: Option<AuthorStateModel>,
}

impl View for SyncAuthor {
    type V = SyncAuthorModel;

    open spec fn view(&self) -> SyncAuthorModel {
        SyncAuthorModel {
            author_id: self.author_id@,
            state: model(self.state),
        }
    }
}

impl Message for SyncAuthor {
    open spec fn shape() -> Shape {
        Shape::SyncAuthor
    }

    fn shape_of() -> (r: Shape) {
        Shape::SyncAuthor
    }

    open spec fn empty() -> SyncAuthorModel {
        SyncAuthorModel { author_id: Seq::empty(), state: None }
    }

    open spec fn fields(m: SyncAuthorModel) -> Seq<FieldModel> {
        wire::bytes_field(1, m.author_id)
            + message::message_field::<AuthorState>(2, m.state)
    }

    open spec fn step(acc: SyncAuthorModel, f: FieldModel, depth: u32) -> Option<SyncAuthorModel> {
        if f.tag == 1 {
            match f.value {
                ValueModel::Bytes(b) => Some(SyncAuthorModel { author_id: b, ..acc }),
                _ => None,
            }
        } else if f.tag == 2 {
            match f.value {
                ValueModel::Bytes(b) => match message::embedded::<AuthorState>(
                    match acc.state {
                        Some(x) => x,
                        None => AuthorState::empty(),
                    },
                    b,
                    depth,
                ) {
                    Some(x) => Some(SyncAuthorModel { state: Some(x), ..acc }),
                    None => None,
                },
                _ => None,
            }
        } else {
            Some(acc)
        }
    }

    proof fn lemma_step(acc: SyncAuthorModel, f: FieldModel, depth: u32) {
        if f.tag == 2 {
            message::lemma_sound_is_read::<AuthorState>(f.value->Bytes_0, (depth - 1) as u32);
        }
    }

    fn empty_message() -> (r: Self) {
        let r = SyncAuthor { author_id: Vec::new(), state: None };
        r
    }

    fn take_field(self, f: &Field, depth: u32) -> (r: Option<Self>) {
        let mut m: SyncAuthor = self;
        if f.tag == 1 {
            match &f.value {
                WireValue::Bytes(b) => {
                    m.author_id = to_vec(b.as_slice());
                },
                _ => {
                    return None;
                },
            }
        } else if f.tag == 2 {
            match &f.value {
                WireValue::Bytes(b) => {
                    let init = match m.state {
                        Some(x) => x,
                        None => AuthorState::empty_message(),
                    };
                    match message::merge_embedded(init, b.as_slice(), depth) {
                        Some(x) => {
                            m.state = Some(x);
                        },
                        None => {
                            return None;
                        },
                    }
                },
                _ => {
                    return None;
                },
            }
        }
        Some(m)
    }

    fn duplicate(&self) -> (r: Self) {
        SyncAuthor {
            author_id: to_vec(self.author_id.as_slice()),
            state: message::duplicate_message(&self.state),
        }
    }

    fn put_fields(&self, out: &mut Vec<u8>) {
        let ghost base = out@;
        let ghost m = self@;
        wire::put_bytes(1, self.author_id.as_slice(), out);
        let ghost done = wire::bytes_field(1, m.author_id);
        message::put_message(2, &self.state, out);
        proof {
            message::lemma_append(base, done, message::message_field::<AuthorState>(2, m.state));
        }
    }
}

impl Clone for SyncAuthor {
    fn clone(&self) -> (r: Self)
        ensures
            r@ == self@,
    {
        self.duplicate()
    }
}

/// A [`SyncAuthor`] is read back as it was written, provided its encoding has a 64-bit length.
pub proof fn law_sync_author_round_trip(m: SyncAuthorModel)
    requires
        message::encoded::<SyncAuthor>(m).len() <= u64::MAX,
    ensures
        message::decoded::<SyncAuthor>(message::encoded::<SyncAuthor>(m)) == Some(m),
{
    reveal(message::decoded);
    lemma_sync_author_at(m, wire::NESTING_LIMIT);
}

/// The same, in a message that may have `depth` more levels.
pub proof fn lemma_sync_author_at(m: SyncAuthorModel, depth: u32)
    requires
        depth >= 2,
        message::encoded::<SyncAuthor>(m).len() <= u64::MAX,
    ensures
        message::decoded_at::<SyncAuthor>(message::encoded::<SyncAuthor>(m), depth) == Some(m),
{
    let step = message::step_of::<SyncAuthor>(depth);
    let fields = SyncAuthor::fields(m);
    let s1 = wire::bytes_field(1, m.author_id);
    let s2 = message::message_field::<AuthorState>(2, m.state);
    let p1 = s1;
    let p2 = p1 + s2;
    assert(message::shape_ok(s1));
    assert(message::shape_ok(s2));
    message::lemma_shape_concat(p1, s2);
    message::lemma_fields_ok(fields);
    let a0 = SyncAuthor::empty();
    let a1 = SyncAuthorModel { author_id: m.author_id, ..a0 };
    let a2 = SyncAuthorModel { state: m.state, ..a1 };
    assert(m.author_id.len() == 0 ==> m.author_id =~= Seq::empty());
    message::lemma_fold_bytes(a0, 1, m.author_id, step, a1);
    if let Some(x) = m.state {
        assert(fields[p1.len() as int] == wire::item_field(2, message::encoded::<AuthorState>(x)));
        message::lemma_payload_within(fields, p1.len() as int);
        lemma_author_state_at(x, (depth - 1) as u32);
    }
    message::lemma_fold_message::<_, AuthorState>(a1, 2, m.state, step, a2);
    wire::lemma_fold_concat(a0, p1, s2, step);
    message::lemma_round_trip::<SyncAuthor>(m, depth);
}

/// The states of all authors' chains.
#[derive(Debug, PartialEq, Eq)]
pub struct SyncState {
    pub authors: Vec<SyncAuthor>,
    pub sender_hlc: Option<Hlc>,
    pub common_hlc: Option<Hlc>,
}

/// The model of [`SyncState`].
pub struct SyncStateModel {
    pub authors: Seq<SyncAuthorModel>,
    pub sender_hlc: Option<Hlc>,
    pub common_hlc: Option<Hlc>,
}

impl View for SyncState {
    type V = SyncStateModel;

    open spec fn view(&self) -> SyncStateModel {
        SyncStateModel {
            authors: models(self.authors@),
            sender_hlc: model(self.sender_hlc),
            common_hlc: model(self.common_hlc),
        }
    }
}

impl Message for SyncState {
    open spec fn shape() -> Shape {
        Shape::SyncState
    }

    fn shape_of() -> (r: Shape) {
        Shape::SyncState
    }

    open spec fn empty() -> SyncStateModel {
        SyncStateModel { authors: Seq::empty(), sender_hlc: None, common_hlc: None }
    }

    open spec fn fields(m: SyncStateModel) -> Seq<FieldModel> {
        message::message_items::<SyncAuthor>(1, m.authors)
            + message::message_field::<Hlc>(2, m.sender_hlc)
            + message::message_field::<Hlc>(3, m.common_hlc)
    }

    open spec fn step(acc: SyncStateModel, f: FieldModel, depth: u32) -> Option<SyncStateModel> {
        if f.tag == 1 {
            match f.value {
                ValueModel::Bytes(b) => match message::embedded::<SyncAuthor>(SyncAuthor::empty(), b, depth) {
                    Some(x) => Some(SyncStateModel { authors: acc.authors.push(x), ..acc }),
                    None => None,
                },
                _ => None,
            }
        } else if f.tag == 2 {
            match f.value {
                ValueModel::Bytes(b) => match message::embedded::<Hlc>(
                    match acc.sender_hlc {
                        Some(x) => x,
                        None => Hlc::empty(),
                    },
                    b,
                    depth,
                ) {
                    Some(x) => Some(SyncStateModel { sender_hlc: Some(x), ..acc }),
                    None => None,
                },
                _ => None,
            }
        } else if f.tag == 3 {
            match f.value {
                ValueModel::Bytes(b) => match message::embedded::<Hlc>(
                    match acc.common_hlc {
                        Some(x) => x,
                        None => Hlc::empty(),
                    },
                    b,
                    depth,
                ) {
                    Some(x) => Some(SyncStateModel { common_hlc: Some(x), ..acc }),
                    None => None,
                },
                _ => None,
            }
        } else {
            Some(acc)
        }
    }

    proof fn lemma_step(acc: SyncStateModel, f: FieldModel, depth: u32) {
        if f.tag == 1 {
            message::lemma_sound_is_read::<SyncAuthor>(f.value->Bytes_0, (depth - 1) as u32);
        }
        if f.tag == 2 {
            message::lemma_sound_is_read::<Hlc>(f.value->Bytes_0, (depth - 1) as u32);
        }
        if f.tag == 3 {
            message::lemma_sound_is_read::<Hlc>(f.value->Bytes_0, (depth - 1) as u32);
        }
    }

    fn empty_message() -> (r: Self) {
        let r = SyncState { authors: Vec::new(), sender_hlc: None, common_hlc: None };
        assert(r@.authors =~= Seq::empty());
        r
    }

    fn take_field(self, f: &Field, depth: u32) -> (r: Option<Self>) {
        let mut m: SyncState = self;
        if f.tag == 1 {
            match &f.value {
                WireValue::Bytes(b) => {
                    match message::merge_embedded(SyncAuthor::empty_message(), b.as_slice(), depth) {
                        Some(item) => {
                            let ghost x = item@;
                            m.authors.push(item);
                            assert(m@.authors =~= self@.authors.push(x));
                        },
                        None => {
                            return None;
                        },
                    }
                },
                _ => {
                    return None;
                },
            }
        } else if f.tag == 2 {
            match &f.value {
                WireValue::Bytes(b) => {
                    let init = match m.sender_hlc {
                        Some(x) => x,
                        None => Hlc::empty_message(),
                    };
                    match message::merge_embedded(init, b.as_slice(), depth) {
                        Some(x) => {
                            m.sender_hlc = Some(x);
                        },
                        None => {
                            return None;
                        },
                    }
                },
                _ => {
                    return None;
                },
            }
        } else if f.tag == 3 {
            match &f.value {
                WireValue::Bytes(b) => {
                    let init = match m.common_hlc {
                        Some(x) => x,
                        None => Hlc::empty_message(),
                    };
                    match message::merge_embedded(init, b.as_slice(), depth) {
                        Some(x) => {
                            m.common_hlc = Some(x);
                        },
                        None => {
                            return None;
                        },
                    }
                },
                _ => {
                    return None;
                },
            }
        }
        Some(m)
    }

    fn duplicate(&self) -> (r: Self) {
        SyncState {
            authors: message::duplicate_items(&self.authors),
            sender_hlc: message::duplicate_message(&self.sender_hlc),
            common_hlc: message::duplicate_message(&self.common_hlc),
        }
    }

    fn put_fields(&self, out: &mut Vec<u8>) {
        let ghost base = out@;
        let ghost m = self@;
        message::put_message_items(1, &self.authors, out);
        let ghost done = message::message_items::<SyncAuthor>(1, m.authors);
        message::put_message(2, &self.sender_hlc, out);
        proof {
            message::lemma_append(base, done, message::message_field::<Hlc>(2, m.sender_hlc));
        }
        let ghost done = done + message::message_field::<Hlc>(2, m.sender_hlc);
        message::put_message(3, &self.common_hlc, out);
        proof {
            message::lemma_append(base, done, message::message_field::<Hlc>(3, m.common_hlc));
        }
    }
}

impl Clone for SyncState {
    fn clone(&self) -> (r: Self)
        ensures
            r@ == self@,
    {
        self.duplicate()
    }
}

/// A [`SyncState`] is read back as it was written, provided its encoding has a 64-bit length.
pub proof fn law_sync_state_round_trip(m: SyncStateModel)
    requires
        message::encoded::<SyncState>(m).len() <= u64::MAX,
    ensures
        message::decoded::<SyncState>(message::encoded::<SyncState>(m)) == Some(m),
{
    reveal(message::decoded);
    lemma_sync_state_at(m, wire::NESTING_LIMIT);
}

/// The same, in a message that may have `depth` more levels.
pub proof fn lemma_sync_state_at(m: SyncStateModel, depth: u32)
    requires
        depth >= 3,
        message::encoded::<SyncState>(m).len() <= u64::MAX,
    ensures
        message::decoded_at::<SyncState>(message::encoded::<SyncState>(m), depth) == Some(m),
{
    let step = message::step_of::<SyncState>(depth);
    let fields = SyncState::fields(m);
    let s1 = message::message_items::<SyncAuthor>(1, m.authors);
    let s2 = message::message_field::<Hlc>(2, m.sender_hlc);
    let s3 = message::message_field::<Hlc>(3, m.common_hlc);
    let p1 = s1;
    let p2 = p1 + s2;
    let p3 = p2 + s3;
    assert(message::shape_ok(s1));
    assert(message::shape_ok(s2));
    message::lemma_shape_concat(p1, s2);
    assert(message::shape_ok(s3));
    message::lemma_shape_concat(p2, s3);
    message::lemma_fields_ok(fields);
    let a0 = SyncState::empty();
    let a1 = SyncStateModel { authors: m.authors, ..a0 };
    let a2 = SyncStateModel { sender_hlc: m.sender_hlc, ..a1 };
    let a3 = SyncStateModel { common_hlc: m.common_hlc, ..a2 };
    assert forall|i: int| 0 <= i < m.authors.len() implies message::decoded_at::<SyncAuthor>(
        message::encoded::<SyncAuthor>(#[trigger] m.authors[i]),
        (depth - 1) as u32,
    ) == Some(m.authors[i]) by {
        assert(fields[0 + i] == s1[i]);
        message::lemma_payload_within(fields, 0 + i);
        lemma_sync_author_at(m.authors[i], (depth - 1) as u32);
    }
    let acc1 = |i: int| SyncStateModel { authors: m.authors.take(i), ..a0 };
    assert forall|i: int| 0 <= i < s1.len() implies step(acc1(i), #[trigger] s1[i]) == Some(
        acc1(i + 1),
    ) by {
        assert(message::decoded_at::<SyncAuthor>(message::encoded::<SyncAuthor>(m.authors[i]), (depth - 1) as u32) == Some(m.authors[i]));
        assert(m.authors.take(i + 1) =~= m.authors.take(i).push(m.authors[i]));
    }
    message::lemma_fold_steps(s1, step, acc1);
    assert(m.authors.take(0) =~= Seq::empty());
    assert(m.authors.take(s1.len() as int) =~= m.authors);
    if let Some(x) = m.sender_hlc {
        lemma_hlc_at(x, (depth - 1) as u32);
    }
    message::lemma_fold_message::<_, Hlc>(a1, 2, m.sender_hlc, step, a2);
    wire::lemma_fold_concat(a0, p1, s2, step);
    if let Some(x) = m.common_hlc {
        lemma_hlc_at(x, (depth - 1) as u32);
    }
    message::lemma_fold_message::<_, Hlc>(a2, 3, m.common_hlc, step, a3);
    wire::lemma_fold_concat(a0, p2, s3, step);
    message::lemma_round_trip::<SyncState>(m, depth);
}

/// What a peer last said of its chains.
#[derive(Debug, PartialEq, Eq)]
pub struct PeerSyncInfo {
    pub sync_state: Option<SyncState>,
    pub updated_at: u64,
}

/// The model of [`PeerSyncInfo`].
pub struct PeerSyncInfoModel {
    pub sync_state: Option<SyncStateModel>,
    pub updated_at: u64,
}

impl View for PeerSyncInfo {
    type V = PeerSyncInfoModel;

    open spec fn view(&self) -> PeerSyncInfoModel {
        PeerSyncInfoModel {
            sync_state: model(self.sync_state),
            updated_at: self.updated_at,
        }
    }
}

impl Message for PeerSyncInfo {
    open spec fn shape() -> Shape {
        Shape::PeerSyncInfo
    }

    fn shape_of() -> (r: Shape) {
        Shape::PeerSyncInfo
    }

    open spec fn empty() -> PeerSyncInfoModel {
        PeerSyncInfoModel { sync_state: None, updated_at: 0 }
    }

    open spec fn fields(m: PeerSyncInfoModel) -> Seq<FieldModel> {
        message::message_field::<SyncState>(1, m.sync_state)
            + wire::number_field(2, m.updated_at)
    }

    open spec fn step(acc: PeerSyncInfoModel, f: FieldModel, depth: u32) -> Option<PeerSyncInfoModel> {
        if f.tag == 1 {
            match f.value {
                ValueModel::Bytes(b) => match message::embedded::<SyncState>(
                    match acc.sync_state {
                        Some(x) => x,
                        None => SyncState::empty(),
                    },
                    b,
                    depth,
                ) {
                    Some(x) => Some(PeerSyncInfoModel { sync_state: Some(x), ..acc }),
                    None => None,
                },
                _ => None,
            }
        } else if f.tag == 2 {
            match f.value {
                ValueModel::Varint(v) => Some(PeerSyncInfoModel { updated_at: v, ..acc }),
                _ => None,
            }
        } else {
            Some(acc)
        }
    }

    proof fn lemma_step(acc: PeerSyncInfoModel, f: FieldModel, depth: u32) {
        if f.tag == 1 {
            message::lemma_sound_is_read::<SyncState>(f.value->Bytes_0, (depth - 1) as u32);
        }
    }

    fn empty_message() -> (r: Self) {
        let r = PeerSyncInfo { sync_state: None, updated_at: 0 };
        r
    }

    fn take_field(self, f: &Field, depth: u32) -> (r: Option<Self>) {
        let mut m: PeerSyncInfo = self;
        if f.tag == 1 {
            match &f.value {
                WireValue::Bytes(b) => {
                    let init = match m.sync_state {
                        Some(x) => x,
                        None => SyncState::empty_message(),
                    };
                    match message::merge_embedded(init, b.as_slice(), depth) {
                        Some(x) => {
                            m.sync_state = Some(x);
                        },
                        None => {
                            return None;
                        },
                    }
                },
                _ => {
                    return None;
                },
            }
        } else if f.tag == 2 {
            match &f.value {
                WireValue::Varint(v) => {
                    m.updated_at = *v;
                },
                _ => {
                    return None;
                },
            }
        }
        Some(m)
    }

    fn duplicate(&self) -> (r: Self) {
        PeerSyncInfo {
            sync_state: message::duplicate_message(&self.sync_state),
            updated_at: self.updated_at,
        }
    }

    fn put_fields(&self, out: &mut Vec<u8>) {
        let ghost base = out@;
        let ghost m = self@;
        message::put_message(1, &self.sync_state, out);
        let ghost done = message::message_field::<SyncState>(1, m.sync_state);
        wire::put_number(2, self.updated_at, out);
        proof {
            message::lemma_append(base, done, wire::number_field(2, m.updated_at));
        }
    }
}

impl Clone for PeerSyncInfo {
    fn clone(&self) -> (r: Self)
        ensures
            r@ == self@,
    {
        self.duplicate()
    }
}

/// A [`PeerSyncInfo`] is read back as it was written, provided its encoding has a 64-bit length.
pub proof fn law_peer_sync_info_round_trip(m: PeerSyncInfoModel)
    requires
        message::encoded::<PeerSyncInfo>(m).len() <= u64::MAX,
    ensures
        message::decoded::<PeerSyncInfo>(message::encoded::<PeerSyncInfo>(m)) == Some(m),
{
    reveal(message::decoded);
    lemma_peer_sync_info_at(m, wire::NESTING_LIMIT);
}

/// The same, in a message that may have `depth` more levels.
pub proof fn lemma_peer_sync_info_at(m: PeerSyncInfoModel, depth: u32)
    requires
        depth >= 4,
        message::encoded::<PeerSyncInfo>(m).len() <= u64::MAX,
    ensures
        message::decoded_at::<PeerSyncInfo>(message::encoded::<PeerSyncInfo>(m), depth) == Some(m),
{
    let step = message::step_of::<PeerSyncInfo>(depth);
    let fields = PeerSyncInfo::fields(m);
    let s1 = message::message_field::<SyncState>(1, m.sync_state);
    let s2 = wire::number_field(2, m.updated_at);
    let p1 = s1;
    let p2 = p1 + s2;
    assert(message::shape_ok(s1));
    assert(message::shape_ok(s2));
    message::lemma_shape_concat(p1, s2);
    message::lemma_fields_ok(fields);
    let a0 = PeerSyncInfo::empty();
    let a1 = PeerSyncInfoModel { sync_state: m.sync_state, ..a0 };
    let a2 = PeerSyncInfoModel { updated_at: m.updated_at, ..a1 };
    if let Some(x) = m.sync_state {
        assert(fields[0] == wire::item_field(1, message::encoded::<SyncState>(x)));
        message::lemma_payload_within(fields, 0);
        lemma_sync_state_at(x, (depth - 1) as u32);
    }
    message::lemma_fold_message::<_, SyncState>(a0, 1, m.sync_state, step, a1);
    message::lemma_fold_number(a1, 2, m.updated_at, step, a2);
    wire::lemma_fold_concat(a0, p1, s2, step);
    message::lemma_round_trip::<PeerSyncInfo>(m, depth);
}

/// What is kept of a mesh.
#[derive(Debug, PartialEq, Eq)]
pub struct MeshInfo {
    pub joined_at: u64,
    pub is_creator: bool,
}

/// The model of [`MeshInfo`].
pub struct MeshInfoModel {
    pub joined_at: u64,
    pub is_creator: bool,
}

impl View for MeshInfo {
    type V = MeshInfoModel;

    open spec fn view(&self) -> MeshInfoModel {
        MeshInfoModel {
            joined_at: self.joined_at,
            is_creator: self.is_creator,
        }
    }
}

impl Message for MeshInfo {
    open spec fn shape() -> Shape {
        Shape::MeshInfo
    }

    fn shape_of() -> (r: Shape) {
        Shape::MeshInfo
    }

    open spec fn empty() -> MeshInfoModel {
        MeshInfoModel { joined_at: 0, is_creator: false }
    }

    open spec fn fields(m: MeshInfoModel) -> Seq<FieldModel> {
        wire::number_field(1, m.joined_at)
            + wire::number_field(2, bit(m.is_creator))
    }

    open spec fn step(acc: MeshInfoModel, f: FieldModel, depth: u32) -> Option<MeshInfoModel> {
        if f.tag == 1 {
            match f.value {
                ValueModel::Varint(v) => Some(MeshInfoModel { joined_at: v, ..acc }),
                _ => None,
            }
        } else if f.tag == 2 {
            match f.value {
                ValueModel::Varint(v) => Some(MeshInfoModel { is_creator: v != 0, ..acc }),
                _ => None,
            }
        } else {
            Some(acc)
        }
    }

    proof fn lemma_step(acc: MeshInfoModel, f: FieldModel, depth: u32) {
    }

    fn empty_message() -> (r: Self) {
        let r = MeshInfo { joined_at: 0, is_creator: false };
        r
    }

    fn take_field(self, f: &Field, depth: u32) -> (r: Option<Self>) {
        let mut m: MeshInfo = self;
        if f.tag == 1 {
            match &f.value {
                WireValue::Varint(v) => {
                    m.joined_at = *v;
                },
                _ => {
                    return None;
                },
            }
        } else if f.tag == 2 {
            match &f.value {
                WireValue::Varint(v) => {
                    m.is_creator = *v != 0;
                },
                _ => {
                    return None;
                },
            }
        }
        Some(m)
    }

    fn duplicate(&self) -> (r: Self) {
        MeshInfo {
            joined_at: self.joined_at,
            is_creator: self.is_creator,
        }
    }

    fn put_fields(&self, out: &mut Vec<u8>) {
        let ghost base = out@;
        let ghost m = self@;
        wire::put_number(1, self.joined_at, out);
        let ghost done = wire::number_field(1, m.joined_at);
        wire::put_number(2, if self.is_creator {
            1
        } else {
            0
        }, out);
        proof {
            message::lemma_append(base, done, wire::number_field(2, bit(m.is_creator)));
        }
    }
}

impl Clone for MeshInfo {
    fn clone(&self) -> (r: Self)
        ensures
            r@ == self@,
    {
        self.duplicate()
    }
}

/// A [`MeshInfo`] is read back as it was written, provided its encoding has a 64-bit length.
pub proof fn law_mesh_info_round_trip(m: MeshInfoModel)
    requires
        message::encoded::<MeshInfo>(m).len() <= u64::MAX,
    ensures
        message::decoded::<MeshInfo>(message::encoded::<MeshInfo>(m)) == Some(m),
{
    reveal(message::decoded);
    lemma_mesh_info_at(m, wire::NESTING_LIMIT);
}

/// The same, in a message that may have `depth` more levels.
pub proof fn lemma_mesh_info_at(m: MeshInfoModel, depth: u32)
    requires
        message::encoded::<MeshInfo>(m).len() <= u64::MAX,
    ensures
        message::decoded_at::<MeshInfo>(message::encoded::<MeshInfo>(m), depth) == Some(m),
{
    let step = message::step_of::<MeshInfo>(depth);
    let fields = MeshInfo::fields(m);
    let s1 = wire::number_field(1, m.joined_at);
    let s2 = wire::number_field(2, bit(m.is_creator));
    let p1 = s1;
    let p2 = p1 + s2;
    assert(message::shape_ok(s1));
    assert(message::shape_ok(s2));
    message::lemma_shape_concat(p1, s2);
    message::lemma_fields_ok(fields);
    let a0 = MeshInfo::empty();
    let a1 = MeshInfoModel { joined_at: m.joined_at, ..a0 };
    let a2 = MeshInfoModel { is_creator: m.is_creator, ..a1 };
    message::lemma_fold_number(a0, 1, m.joined_at, step, a1);
    message::lemma_fold_number(a1, 2, bit(m.is_creator), step, a2);
    wire::lemma_fold_concat(a0, p1, s2, step);
    message::lemma_round_trip::<MeshInfo>(m, depth);
}

/// What is kept of a store.
#[derive(Debug, PartialEq, Eq)]
pub struct StoreMetadata {
    pub mesh_id: Vec<u8>,
    pub created_at: u64,
}

/// The model of [`StoreMetadata`].
pub struct StoreMetadataModel {
    pub mesh_id: Seq<u8>,
    pub created_at: u64,
}

impl View for StoreMetadata {
    type V = StoreMetadataModel;

    open spec fn view(&self) -> StoreMetadataModel {
        StoreMetadataModel {
            mesh_id: self.mesh_id@,
            created_at: self.created_at,
        }
    }
}

impl Message for StoreMetadata {
    open spec fn shape() -> Shape {
        Shape::StoreMetadata
    }

    fn shape_of() -> (r: Shape) {
        Shape::StoreMetadata
    }

    open spec fn empty() -> StoreMetadataModel {
        StoreMetadataModel { mesh_id: Seq::empty(), created_at: 0 }
    }

    open spec fn fields(m: StoreMetadataModel) -> Seq<FieldModel> {
        wire::bytes_field(1, m.mesh_id)
            + wire::number_field(2, m.created_at)
    }

    open spec fn step(acc: StoreMetadataModel, f: FieldModel, depth: u32) -> Option<StoreMetadataModel> {
        if f.tag == 1 {
            match f.value {
                ValueModel::Bytes(b) => Some(StoreMetadataModel { mesh_id: b, ..acc }),
                _ => None,
            }
        } else if f.tag == 2 {
            match f.value {
                ValueModel::Varint(v) => Some(StoreMetadataModel { created_at: v, ..acc }),
                _ => None,
            }
        } else {
            Some(acc)
        }
    }

    proof fn lemma_step(acc: StoreMetadataModel, f: FieldModel, depth: u32) {
    }

    fn empty_message() -> (r: Self) {
        let r = StoreMetadata { mesh_id: Vec::new(), created_at: 0 };
        r
    }

    fn take_field(self, f: &Field, depth: u32) -> (r: Option<Self>) {
        let mut m: StoreMetadata = self;
        if f.tag == 1 {
            match &f.value {
                WireValue::Bytes(b) => {
                    m.mesh_id = to_vec(b.as_slice());
                },
                _ => {
                    return None;
                },
            }
        } else if f.tag == 2 {
            match &f.value {
                WireValue::Varint(v) => {
                    m.created_at = *v;
                },
                _ => {
                    return None;
                },
            }
        }
        Some(m)
    }

    fn duplicate(&self) -> (r: Self) {
        StoreMetadata {
            mesh_id: to_vec(self.mesh_id.as_slice()),
            created_at: self.created_at,
        }
    }

    fn put_fields(&self, out: &mut Vec<u8>) {
        let ghost base = out@;
        let ghost m = self@;
        wire::put_bytes(1, self.mesh_id.as_slice(), out);
        let ghost done = wire::bytes_field(1, m.mesh_id);
        wire::put_number(2, self.created_at, out);
        proof {
            message::lemma_append(base, done, wire::number_field(2, m.created_at));
        }
    }
}

impl Clone for StoreMetadata {
    fn clone(&self) -> (r: Self)
        ensures
            r@ == self@,
    {
        self.duplicate()
    }
}

/// A [`StoreMetadata`] is read back as it was written, provided its encoding has a 64-bit length.
pub proof fn law_store_metadata_round_trip(m: StoreMetadataModel)
    requires
        message::encoded::<StoreMetadata>(m).len() <= u64::MAX,
    ensures
        message::decoded::<StoreMetadata>(message::encoded::<StoreMetadata>(m)) == Some(m),
{
    reveal(message::decoded);
    lemma_store_metadata_at(m, wire::NESTING_LIMIT);
}

/// The same, in a message that may have `depth` more levels.
pub proof fn lemma_store_metadata_at(m: StoreMetadataModel, depth: u32)
    requires
        message::encoded::<StoreMetadata>(m).len() <= u64::MAX,
    ensures
        message::decoded_at::<StoreMetadata>(message::encoded::<StoreMetadata>(m), depth) == Some(m),
{
    let step = message::step_of::<StoreMetadata>(depth);
    let fields = StoreMetadata::fields(m);
    let s1 = wire::bytes_field(1, m.mesh_id);
    let s2 = wire::number_field(2, m.created_at);
    let p1 = s1;
    let p2 = p1 + s2;
    assert(message::shape_ok(s1));
    assert(message::shape_ok(s2));
    message::lemma_shape_concat(p1, s2);
    message::lemma_fields_ok(fields);
    let a0 = StoreMetadata::empty();
    let a1 = StoreMetadataModel { mesh_id: m.mesh_id, ..a0 };
    let a2 = StoreMetadataModel { created_at: m.created_at, ..a1 };
    assert(m.mesh_id.len() == 0 ==> m.mesh_id =~= Seq::empty());
    message::lemma_fold_bytes(a0, 1, m.mesh_id, step, a1);
    message::lemma_fold_number(a1, 2, m.created_at, step, a2);
    wire::lemma_fold_concat(a0, p1, s2, step);
    message::lemma_round_trip::<StoreMetadata>(m, depth);
}

} // verus!
