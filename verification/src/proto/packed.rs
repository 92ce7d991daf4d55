//! Messages of stores that keep a timestamp as one number.
use crate::bytes::to_vec;
use crate::message;
use crate::message::{models, Message};
use crate::proto::storage;
use crate::schema::Shape;
use crate::wire;
use crate::wire::{Field, FieldModel, ValueModel, WireValue};
use vstd::prelude::*;

verus! {

/// One head of a key's history.
#[derive(Debug, PartialEq, Eq)]
pub struct PackedHead {
    pub value: Vec<u8>,
    pub hlc: u64,
    pub author: Vec<u8>,
    pub hash: Vec<u8>,
    pub tombstone: bool,
}

/// The model of [`PackedHead`].
pub struct PackedHeadModel {
    pub value: Seq<u8>,
    pub hlc: u64,
    pub author: Seq<u8>,
    pub hash: Seq<u8>,
    pub tombstone: bool,
}

impl View for PackedHead {
    type V = PackedHeadModel;

    open spec fn view(&self) -> PackedHeadModel {
        PackedHeadModel {
            value: self.value@,
            hlc: self.hlc,
            author: self.author@,
            hash: self.hash@,
            tombstone: self.tombstone,
        }
    }
}

impl Message for PackedHead {
    open spec fn shape() -> Shape {
        Shape::PackedHead
    }

    fn shape_of() -> (r: Shape) {
        Shape::PackedHead
    }

    open spec fn empty() -> PackedHeadModel {
        PackedHeadModel { value: Seq::empty(), hlc: 0, author: Seq::empty(), hash: Seq::empty(), tombstone: false }
    }

    open spec fn fields(m: PackedHeadModel) -> Seq<FieldModel> {
        wire::bytes_field(1, m.value)
            + wire::number_field(2, m.hlc)
            + wire::bytes_field(3, m.author)
            + wire::bytes_field(4, m.hash)
            + wire::number_field(5, storage::bit(m.tombstone))
    }

    open spec fn step(acc: PackedHeadModel, f: FieldModel, depth: u32) -> Option<PackedHeadModel> {
        if f.tag == 1 {
            match f.value {
                ValueModel::Bytes(b) => Some(PackedHeadModel { value: b, ..acc }),
                _ => None,
            }
        } else if f.tag == 2 {
            match f.value {
                ValueModel::Varint(v) => Some(PackedHeadModel { hlc: v, ..acc }),
                _ => None,
            }
        } else if f.tag == 3 {
            match f.value {
                ValueModel::Bytes(b) => Some(PackedHeadModel { author: b, ..acc }),
                _ => None,
            }
        } else if f.tag == 4 {
            match f.value {
                ValueModel::Bytes(b) => Some(PackedHeadModel { hash: b, ..acc }),
                _ => None,
            }
        } else if f.tag == 5 {
            match f.value {
                ValueModel::Varint(v) => Some(PackedHeadModel { tombstone: v != 0, ..acc }),
                _ => None,
            }
        } else {
            Some(acc)
        }
    }

    proof fn lemma_step(acc: PackedHeadModel, f: FieldModel, depth: u32) {
    }

    fn empty_message() -> (r: Self) {
        let r = PackedHead { value: Vec::new(), hlc: 0, author: Vec::new(), hash: Vec::new(), tombstone: false };
        r
    }

    fn take_field(self, f: &Field, depth: u32) -> (r: Option<Self>) {
        let mut m: PackedHead = self;
        if f.tag == 1 {
            match &f.value {
                WireValue::Bytes(b) => {
                    m.value = to_vec(b.as_slice());
                },
                _ => {
                    return None;
                },
            }
        } else if f.tag == 2 {
            match &f.value {
                WireValue::Varint(v) => {
                    m.hlc = *v;
                },
                _ => {
                    return None;
                },
            }
        } else if f.tag == 3 {
            match &f.value {
                WireValue::Bytes(b) => {
                    m.author = to_vec(b.as_slice());
                },
                _ => {
                    return None;
                },
            }
        } else if f.tag == 4 {
            match &f.value {
                WireValue::Bytes(b) => {
                    m.hash = to_vec(b.as_slice());
                },
                _ => {
                    return None;
                },
            }
        } else if f.tag == 5 {
            match &f.value {
                WireValue::Varint(v) => {
                    m.tombstone = *v != 0;
                },
                _ => {
                    return None;
                },
            }
        }
        Some(m)
    }

    fn duplicate(&self) -> (r: Self) {
        PackedHead {
            value: to_vec(self.value.as_slice()),
            hlc: self.hlc,
            author: to_vec(self.author.as_slice()),
            hash: to_vec(self.hash.as_slice()),
            tombstone: self.tombstone,
        }
    }

    fn put_fields(&self, out: &mut Vec<u8>) {
        let ghost base = out@;
        let ghost m = self@;
        wire::put_bytes(1, self.value.as_slice(), out);
        let ghost done = wire::bytes_field(1, m.value);
        wire::put_number(2, self.hlc, out);
        proof {
            message::lemma_append(base, done, wire::number_field(2, m.hlc));
        }
        let ghost done = done + wire::number_field(2, m.hlc);
        wire::put_bytes(3, self.author.as_slice(), out);
        proof {
            message::lemma_append(base, done, wire::bytes_field(3, m.author));
        }
        let ghost done = done + wire::bytes_field(3, m.author);
        wire::put_bytes(4, self.hash.as_slice(), out);
        proof {
            message::lemma_append(base, done, wire::bytes_field(4, m.hash));
        }
        let ghost done = done + wire::bytes_field(4, m.hash);
        wire::put_number(5, if self.tombstone {
            1
        } else {
            0
        }, out);
        proof {
            message::lemma_append(base, done, wire::number_field(5, storage::bit(m.tombstone)));
        }
    }
}

impl Clone for PackedHead {
    fn clone(&self) -> (r: Self)
        ensures
            r@ == self@,
    {
        self.duplicate()
    }
}

/// A [`PackedHead`] is read back as it was written, provided its encoding has a 64-bit length.
pub proof fn law_packed_head_round_trip(m: PackedHeadModel)
    requires
        message::encoded::<PackedHead>(m).len() <= u64::MAX,
    ensures
        message::decoded::<PackedHead>(message::encoded::<PackedHead>(m)) == Some(m),
{
    reveal(message::decoded);
    lemma_packed_head_at(m, wire::NESTING_LIMIT);
}

/// The same, in a message that may have `depth` more levels.
pub proof fn lemma_packed_head_at(m: PackedHeadModel, depth: u32)
    requires
        message::encoded::<PackedHead>(m).len() <= u64::MAX,
    ensures
        message::decoded_at::<PackedHead>(message::encoded::<PackedHead>(m), depth) == Some(m),
{
    let step = message::step_of::<PackedHead>(depth);
    let fields = PackedHead::fields(m);
    let s1 = wire::bytes_field(1, m.value);
    let s2 = wire::number_field(2, m.hlc);
    let s3 = wire::bytes_field(3, m.author);
    let s4 = wire::bytes_field(4, m.hash);
    let s5 = wire::number_field(5, storage::bit(m.tombstone));
    let p1 = s1;
    let p2 = p1 + s2;
    let p3 = p2 + s3;
    let p4 = p3 + s4;
    let p5 = p4 + s5;
    assert(message::shape_ok(s1));
    assert(message::shape_ok(s2));
    message::lemma_shape_concat(p1, s2);
    assert(message::shape_ok(s3));
    message::lemma_shape_concat(p2, s3);
    assert(message::shape_ok(s4));
    message::lemma_shape_concat(p3, s4);
    assert(message::shape_ok(s5));
    message::lemma_shape_concat(p4, s5);
    message::lemma_fields_ok(fields);
    let a0 = PackedHead::empty();
    let a1 = PackedHeadModel { value: m.value, ..a0 };
    let a2 = PackedHeadModel { hlc: m.hlc, ..a1 };
    let a3 = PackedHeadModel { author: m.author, ..a2 };
    let a4 = PackedHeadModel { hash: m.hash, ..a3 };
    let a5 = PackedHeadModel { tombstone: m.tombstone, ..a4 };
    assert(m.value.len() == 0 ==> m.value =~= Seq::empty());
    message::lemma_fold_bytes(a0, 1, m.value, step, a1);
    message::lemma_fold_number(a1, 2, m.hlc, step, a2);
    wire::lemma_fold_concat(a0, p1, s2, step);
    assert(m.author.len() == 0 ==> m.author =~= Seq::empty());
    message::lemma_fold_bytes(a2, 3, m.author, step, a3);
    wire::lemma_fold_concat(a0, p2, s3, step);
    assert(m.hash.len() == 0 ==> m.hash =~= Seq::empty());
    message::lemma_fold_bytes(a3, 4, m.hash, step, a4);
    wire::lemma_fold_concat(a0, p3, s4, step);
    message::lemma_fold_number(a4, 5, storage::bit(m.tombstone), step, a5);
    wire::lemma_fold_concat(a0, p4, s5, step);
    message::lemma_round_trip::<PackedHead>(m, depth);
}

/// The heads of a key.
#[derive(Debug, PartialEq, Eq)]
pub struct PackedHeadList {
    pub heads: Vec<PackedHead>,
}

/// The model of [`PackedHeadList`].
pub struct PackedHeadListModel {
    pub heads: Seq<PackedHeadModel>,
}

impl View for PackedHeadList {
    type V = PackedHeadListModel;

    open spec fn view(&self) -> PackedHeadListModel {
        PackedHeadListModel {
            heads: models(self.heads@),
        }
    }
}

impl Message for PackedHeadList {
    open spec fn shape() -> Shape {
        Shape::PackedHeadList
    }

    fn shape_of() -> (r: Shape) {
        Shape::PackedHeadList
    }

    open spec fn empty() -> PackedHeadListModel {
        PackedHeadListModel { heads: Seq::empty() }
    }

    open spec fn fields(m: PackedHeadListModel) -> Seq<FieldModel> {
        message::message_items::<PackedHead>(1, m.heads)
    }

    open spec fn step(acc: PackedHeadListModel, f: FieldModel, depth: u32) -> Option<PackedHeadListModel> {
        if f.tag == 1 {
            match f.value {
                ValueModel::Bytes(b) => match message::embedded::<PackedHead>(PackedHead::empty(), b, depth) {
                    Some(x) => Some(PackedHeadListModel { heads: acc.heads.push(x), ..acc }),
                    None => None,
                },
                _ => None,
            }
        } else {
            Some(acc)
        }
    }

    proof fn lemma_step(acc: PackedHeadListModel, f: FieldModel, depth: u32) {
        if f.tag == 1 {
            message::lemma_sound_is_read::<PackedHead>(f.value->Bytes_0, (depth - 1) as u32);
        }
    }

    fn empty_message() -> (r: Self) {
        let r = PackedHeadList { heads: Vec::new() };
        assert(r@.heads =~= Seq::empty());
        r
    }

    fn take_field(self, f: &Field, depth: u32) -> (r: Option<Self>) {
        let mut m: PackedHeadList = self;
        if f.tag == 1 {
            match &f.value {
                WireValue::Bytes(b) => {
                    match message::merge_embedded(PackedHead::empty_message(), b.as_slice(), depth) {
                        Some(item) => {
                            let ghost x = item@;
                            m.heads.push(item);
                            assert(m@.heads =~= self@.heads.push(x));
                        },
                        None => {
                            return None;
                        },
                    }
                },
                _ => {
                    return None;
                },
            }
        }
        Some(m)
    }

    fn duplicate(&self) -> (r: Self) {
        PackedHeadList {
            heads: message::duplicate_items(&self.heads),
        }
    }

    fn put_fields(&self, out: &mut Vec<u8>) {
        let ghost base = out@;
        let ghost m = self@;
        message::put_message_items(1, &self.heads, out);
        let ghost done = message::message_items::<PackedHead>(1, m.heads);
    }
}

impl Clone for PackedHeadList {
    fn clone(&self) -> (r: Self)
        ensures
            r@ == self@,
    {
        self.duplicate()
    }
}

/// A [`PackedHeadList`] is read back as it was written, provided its encoding has a 64-bit length.
pub proof fn law_packed_head_list_round_trip(m: PackedHeadListModel)
    requires
        message::encoded::<PackedHeadList>(m).len() <= u64::MAX,
    ensures
        message::decoded::<PackedHeadList>(message::encoded::<PackedHeadList>(m)) == Some(m),
{
    reveal(message::decoded);
    lemma_packed_head_list_at(m, wire::NESTING_LIMIT);
}

/// The same, in a message that may have `depth` more levels.
pub proof fn lemma_packed_head_list_at(m: PackedHeadListModel, depth: u32)
    requires
        depth >= 1,
        message::encoded::<PackedHeadList>(m).len() <= u64::MAX,
    ensures
        message::decoded_at::<PackedHeadList>(message::encoded::<PackedHeadList>(m), depth) == Some(m),
{
    let step = message::step_of::<PackedHeadList>(depth);
    let fields = PackedHeadList::fields(m);
    let s1 = message::message_items::<PackedHead>(1, m.heads);
    let p1 = s1;
    assert(message::shape_ok(s1));
    message::lemma_fields_ok(fields);
    let a0 = PackedHeadList::empty();
    let a1 = PackedHeadListModel { heads: m.heads, ..a0 };
    assert forall|i: int| 0 <= i < m.heads.len() implies message::decoded_at::<PackedHead>(
        message::encoded::<PackedHead>(#[trigger] m.heads[i]),
        (depth - 1) as u32,
    ) == Some(m.heads[i]) by {
        assert(fields[0 + i] == s1[i]);
        message::lemma_payload_within(fields, 0 + i);
        lemma_packed_head_at(m.heads[i], (depth - 1) as u32);
    }
    let acc1 = |i: int| PackedHeadListModel { heads: m.heads.take(i), ..a0 };
    assert forall|i: int| 0 <= i < s1.len() implies step(acc1(i), #[trigger] s1[i]) == Some(
        acc1(i + 1),
    ) by {
        assert(message::decoded_at::<PackedHead>(message::encoded::<PackedHead>(m.heads[i]), (depth - 1) as u32) == Some(m.heads[i]));
        assert(m.heads.take(i + 1) =~= m.heads.take(i).push(m.heads[i]));
    }
    message::lemma_fold_steps(s1, step, acc1);
    assert(m.heads.take(0) =~= Seq::empty());
    assert(m.heads.take(s1.len() as int) =~= m.heads);
    message::lemma_round_trip::<PackedHeadList>(m, depth);
}

/// How far an author's log has been applied.
#[derive(Debug, PartialEq, Eq)]
pub struct AuthorProgress {
    pub seq: u64,
    pub hash: Vec<u8>,
    pub log_offset: u64,
}

/// The model of [`AuthorProgress`].
pub struct AuthorProgressModel {
    pub seq: u64,
    pub hash: Seq<u8>,
    pub log_offset: u64,
}

impl View for AuthorProgress {
    type V = AuthorProgressModel;

    open spec fn view(&self) -> AuthorProgressModel {
        AuthorProgressModel {
            seq: self.seq,
            hash: self.hash@,
            log_offset: self.log_offset,
        }
    }
}

impl Message for AuthorProgress {
    open spec fn shape() -> Shape {
        Shape::AuthorProgress
    }

    fn shape_of() -> (r: Shape) {
        Shape::AuthorProgress
    }

    open spec fn empty() -> AuthorProgressModel {
        AuthorProgressModel { seq: 0, hash: Seq::empty(), log_offset: 0 }
    }

    open spec fn fields(m: AuthorProgressModel) -> Seq<FieldModel> {
        wire::number_field(1, m.seq)
            + wire::bytes_field(2, m.hash)
            + wire::number_field(3, m.log_offset)
    }

    open spec fn step(acc: AuthorProgressModel, f: FieldModel, depth: u32) -> Option<AuthorProgressModel> {
        if f.tag == 1 {
            match f.value {
                ValueModel::Varint(v) => Some(AuthorProgressModel { seq: v, ..acc }),
                _ => None,
            }
        } else if f.tag == 2 {
            match f.value {
                ValueModel::Bytes(b) => Some(AuthorProgressModel { hash: b, ..acc }),
                _ => None,
            }
        } else if f.tag == 3 {
            match f.value {
                ValueModel::Varint(v) => Some(AuthorProgressModel { log_offset: v, ..acc }),
                _ => None,
            }
        } else {
            Some(acc)
        }
    }

    proof fn lemma_step(acc: AuthorProgressModel, f: FieldModel, depth: u32) {
    }

    fn empty_message() -> (r: Self) {
        let r = AuthorProgress { seq: 0, hash: Vec::new(), log_offset: 0 };
        r
    }

    fn take_field(self, f: &Field, depth: u32) -> (r: Option<Self>) {
        let mut m: AuthorProgress = self;
        if f.tag == 1 {
            match &f.value {
                WireValue::Varint(v) => {
                    m.seq = *v;
                },
                _ => {
                    return None;
                },
            }
        } else if f.tag == 2 {
            match &f.value {
                WireValue::Bytes(b) => {
                    m.hash = to_vec(b.as_slice());
                },
                _ => {
                    return None;
                },
            }
        } else if f.tag == 3 {
            match &f.value {
                WireValue::Varint(v) => {
                    m.log_offset = *v;
                },
                _ => {
                    return None;
                },
            }
        }
        Some(m)
    }

    fn duplicate(&self) -> (r: Self) {
        AuthorProgress {
            seq: self.seq,
            hash: to_vec(self.hash.as_slice()),
            log_offset: self.log_offset,
        }
    }

    fn put_fields(&self, out: &mut Vec<u8>) {
        let ghost base = out@;
        let ghost m = self@;
        wire::put_number(1, self.seq, out);
        let ghost done = wire::number_field(1, m.seq);
        wire::put_bytes(2, self.hash.as_slice(), out);
        proof {
            message::lemma_append(base, done, wire::bytes_field(2, m.hash));
        }
        let ghost done = done + wire::bytes_field(2, m.hash);
        wire::put_number(3, self.log_offset, out);
        proof {
            message::lemma_append(base, done, wire::number_field(3, m.log_offset));
        }
    }
}

impl Clone for AuthorProgress {
    fn clone(&self) -> (r: Self)
        ensures
            r@ == self@,
    {
        self.duplicate()
    }
}

/// An [`AuthorProgress`] is read back as it was written, provided its encoding has a 64-bit length.
pub proof fn law_author_progress_round_trip(m: AuthorProgressModel)
    requires
        message::encoded::<AuthorProgress>(m).len() <= u64::MAX,
    ensures
        message::decoded::<AuthorProgress>(message::encoded::<AuthorProgress>(m)) == Some(m),
{
    reveal(message::decoded);
    lemma_author_progress_at(m, wire::NESTING_LIMIT);
}

/// The same, in a message that may have `depth` more levels.
pub proof fn lemma_author_progress_at(m: AuthorProgressModel, depth: u32)
    requires
        message::encoded::<AuthorProgress>(m).len() <= u64::MAX,
    ensures
        message::decoded_at::<AuthorProgress>(message::encoded::<AuthorProgress>(m), depth) == Some(m),
{
    let step = message::step_of::<AuthorProgress>(depth);
    let fields = AuthorProgress::fields(m);
    let s1 = wire::number_field(1, m.seq);
    let s2 = wire::bytes_field(2, m.hash);
    let s3 = wire::number_field(3, m.log_offset);
    let p1 = s1;
    let p2 = p1 + s2;
    let p3 = p2 + s3;
    assert(message::shape_ok(s1));
    assert(message::shape_ok(s2));
    message::lemma_shape_concat(p1, s2);
    assert(message::shape_ok(s3));
    message::lemma_shape_concat(p2, s3);
    message::lemma_fields_ok(fields);
    let a0 = AuthorProgress::empty();
    let a1 = AuthorProgressModel { seq: m.seq, ..a0 };
    let a2 = AuthorProgressModel { hash: m.hash, ..a1 };
    let a3 = AuthorProgressModel { log_offset: m.log_offset, ..a2 };
    message::lemma_fold_number(a0, 1, m.seq, step, a1);
    assert(m.hash.len() == 0 ==> m.hash =~= Seq::empty());
    message::lemma_fold_bytes(a1, 2, m.hash, step, a2);
    wire::lemma_fold_concat(a0, p1, s2, step);
    message::lemma_fold_number(a2, 3, m.log_offset, step, a3);
    wire::lemma_fold_concat(a0, p2, s3, step);
    message::lemma_round_trip::<AuthorProgress>(m, depth);
}

} // verus!
