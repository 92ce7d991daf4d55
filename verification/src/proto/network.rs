//! Messages that are handed to other nodes.
use crate::bytes::to_vec;
use crate::message;
use crate::message::Message;
use crate::schema::Shape;
use crate::wire;
use crate::wire::{Field, FieldModel, ValueModel, WireValue};
use vstd::prelude::*;

verus! {

/// An invitation into a mesh.
#[derive(Debug, PartialEq, Eq)]
pub struct InviteToken {
    pub inviter_pubkey: Vec<u8>,
    pub mesh_id: Vec<u8>,
    pub secret: Vec<u8>,
}

/// The model of [`InviteToken`].
pub struct InviteTokenModel {
    pub inviter_pubkey: Seq<u8>,
    pub mesh_id: Seq<u8>,
    pub secret: Seq<u8>,
}

impl View for InviteToken {
    type V = InviteTokenModel;

    open spec fn view(&self) -> InviteTokenModel {
        InviteTokenModel {
            inviter_pubkey: self.inviter_pubkey@,
            mesh_id: self.mesh_id@,
            secret: self.secret@,
        }
    }
}

impl Message for InviteToken {
    open spec fn shape() -> Shape {
        Shape::InviteToken
    }

    fn shape_of() -> (r: Shape) {
        Shape::InviteToken
    }

    open spec fn empty() -> InviteTokenModel {
        InviteTokenModel { inviter_pubkey: Seq::empty(), mesh_id: Seq::empty(), secret: Seq::empty() }
    }

    open spec fn fields(m: InviteTokenModel) -> Seq<FieldModel> {
        wire::bytes_field(1, m.inviter_pubkey)
            + wire::bytes_field(2, m.mesh_id)
            + wire::bytes_field(3, m.secret)
    }

    open spec fn step(acc: InviteTokenModel, f: FieldModel, depth: u32) -> Option<InviteTokenModel> {
        if f.tag == 1 {
            match f.value {
                ValueModel::Bytes(b) => Some(InviteTokenModel { inviter_pubkey: b, ..acc }),
                _ => None,
            }
        } else if f.tag == 2 {
            match f.value {
                ValueModel::Bytes(b) => Some(InviteTokenModel { mesh_id: b, ..acc }),
                _ => None,
            }
        } else if f.tag == 3 {
            match f.value {
                ValueModel::Bytes(b) => Some(InviteTokenModel { secret: b, ..acc }),
                _ => None,
            }
        } else {
            Some(acc)
        }
    }

    proof fn lemma_step(acc: InviteTokenModel, f: FieldModel, depth: u32) {
    }

    fn empty_message() -> (r: Self) {
        let r = InviteToken { inviter_pubkey: Vec::new(), mesh_id: Vec::new(), secret: Vec::new() };
        r
    }

    fn take_field(self, f: &Field, depth: u32) -> (r: Option<Self>) {
        let mut m: InviteToken = self;
        if f.tag == 1 {
            match &f.value {
                WireValue::Bytes(b) => {
                    m.inviter_pubkey = to_vec(b.as_slice());
                },
                _ => {
                    return None;
                },
            }
        } else if f.tag == 2 {
            match &f.value {
                WireValue::Bytes(b) => {
                    m.mesh_id = to_vec(b.as_slice());
                },
                _ => {
                    return None;
                },
            }
        } else if f.tag == 3 {
            match &f.value {
                WireValue::Bytes(b) => {
                    m.secret = to_vec(b.as_slice());
                },
                _ => {
                    return None;
                },
            }
        }
        Some(m)
    }

    fn duplicate(&self) -> (r: Self) {
        InviteToken {
            inviter_pubkey: to_vec(self.inviter_pubkey.as_slice()),
            mesh_id: to_vec(self.mesh_id.as_slice()),
            secret: to_vec(self.secret.as_slice()),
        }
    }

    fn put_fields(&self, out: &mut Vec<u8>) {
        let ghost base = out@;
        let ghost m = self@;
        wire::put_bytes(1, self.inviter_pubkey.as_slice(), out);
        let ghost done = wire::bytes_field(1, m.inviter_pubkey);
        wire::put_bytes(2, self.mesh_id.as_slice(), out);
        proof {
            message::lemma_append(base, done, wire::bytes_field(2, m.mesh_id));
        }
        let ghost done = done + wire::bytes_field(2, m.mesh_id);
        wire::put_bytes(3, self.secret.as_slice(), out);
        proof {
            message::lemma_append(base, done, wire::bytes_field(3, m.secret));
        }
    }
}

impl Clone for InviteToken {
    fn clone(&self) -> (r: Self)
        ensures
            r@ == self@,
    {
        self.duplicate()
    }
}

/// An [`InviteToken`] is read back as it was written, provided its encoding has a 64-bit length.
pub proof fn law_invite_token_round_trip(m: InviteTokenModel)
    requires
        message::encoded::<InviteToken>(m).len() <= u64::MAX,
    ensures
        message::decoded::<InviteToken>(message::encoded::<InviteToken>(m)) == Some(m),
{
    reveal(message::decoded);
    lemma_invite_token_at(m, wire::NESTING_LIMIT);
}

/// The same, in a message that may have `depth` more levels.
pub proof fn lemma_invite_token_at(m: InviteTokenModel, depth: u32)
    requires
        message::encoded::<InviteToken>(m).len() <= u64::MAX,
    ensures
        message::decoded_at::<InviteToken>(message::encoded::<InviteToken>(m), depth) == Some(m),
{
    let step = message::step_of::<InviteToken>(depth);
    let fields = InviteToken::fields(m);
    let s1 = wire::bytes_field(1, m.inviter_pubkey);
    let s2 = wire::bytes_field(2, m.mesh_id);
    let s3 = wire::bytes_field(3, m.secret);
    let p1 = s1;
    let p2 = p1 + s2;
    let p3 = p2 + s3;
    assert(message::shape_ok(s1));
    assert(message::shape_ok(s2));
    message::lemma_shape_concat(p1, s2);
    assert(message::shape_ok(s3));
    message::lemma_shape_concat(p2, s3);
    message::lemma_fields_ok(fields);
    let a0 = InviteToken::empty();
    let a1 = InviteTokenModel { inviter_pubkey: m.inviter_pubkey, ..a0 };
    let a2 = InviteTokenModel { mesh_id: m.mesh_id, ..a1 };
    let a3 = InviteTokenModel { secret: m.secret, ..a2 };
    assert(m.inviter_pubkey.len() == 0 ==> m.inviter_pubkey =~= Seq::empty());
    message::lemma_fold_bytes(a0, 1, m.inviter_pubkey, step, a1);
    assert(m.mesh_id.len() == 0 ==> m.mesh_id =~= Seq::empty());
    message::lemma_fold_bytes(a1, 2, m.mesh_id, step, a2);
    wire::lemma_fold_concat(a0, p1, s2, step);
    assert(m.secret.len() == 0 ==> m.secret =~= Seq::empty());
    message::lemma_fold_bytes(a2, 3, m.secret, step, a3);
    wire::lemma_fold_concat(a0, p2, s3, step);
    message::lemma_round_trip::<InviteToken>(m, depth);
}

} // verus!
