//! Which fields the messages have, and what is wrong with bytes that are not an encoding
//! of one: the fault, and where in the message it was found.
use crate::wire;
use crate::wire::{
    get_key, get_length, get_varint, skip_payload, slice_from, FieldModel, ValueModel, WireFault,
};
use vstd::prelude::*;
use vstd::string::*;

verus! {

/// A message of the schema.
#[derive(Clone, Copy, Debug, PartialEq, Eq, Structural)]
pub enum Shape {
    Hlc,
    PutOp,
    DeleteOp,
    Operation,
    Entry,
    SignedEntry,
    ChainTip,
    HeadInfo,
    HeadList,
    LogRecord,
    OrphanedEntry,
    DagOrphanedEntry,
    AuthorState,
    SyncAuthor,
    SyncState,
    PeerSyncInfo,
    MeshInfo,
    StoreMetadata,
    PackedHead,
    PackedHeadList,
    AuthorProgress,
    InviteToken,
}

/// What a field holds.
#[derive(Clone, Copy, Debug, PartialEq, Eq, Structural)]
pub enum Kind {
    Number,
    Bytes,
    Message(Shape),
}

impl Kind {
    /// The wire type of the field.
    pub open spec fn wire(self) -> u64 {
        match self {
            Kind::Number => 0,
            _ => 2,
        }
    }
}

/// What the field with a tag holds; `None` where the message has no such field.
pub open spec fn kind_of(shape: Shape, tag: u32) -> Option<Kind> {
    match (shape, tag) {
        (Shape::Hlc, 1) => Some(Kind::Number),
        (Shape::Hlc, 2) => Some(Kind::Number),
        (Shape::PutOp, 1) => Some(Kind::Bytes),
        (Shape::PutOp, 2) => Some(Kind::Bytes),
        (Shape::DeleteOp, 1) => Some(Kind::Bytes),
        (Shape::Operation, 1) => Some(Kind::Message(Shape::PutOp)),
        (Shape::Operation, 2) => Some(Kind::Message(Shape::DeleteOp)),
        (Shape::Entry, 1) => Some(Kind::Number),
        (Shape::Entry, 2) => Some(Kind::Bytes),
        (Shape::Entry, 3) => Some(Kind::Bytes),
        (Shape::Entry, 4) => Some(Kind::Bytes),
        (Shape::Entry, 5) => Some(Kind::Number),
        (Shape::Entry, 6) => Some(Kind::Message(Shape::Hlc)),
        (Shape::Entry, 7) => Some(Kind::Message(Shape::Operation)),
        (Shape::SignedEntry, 1) => Some(Kind::Bytes),
        (Shape::SignedEntry, 2) => Some(Kind::Bytes),
        (Shape::SignedEntry, 3) => Some(Kind::Bytes),
        (Shape::ChainTip, 1) => Some(Kind::Number),
        (Shape::ChainTip, 2) => Some(Kind::Bytes),
        (Shape::ChainTip, 3) => Some(Kind::Message(Shape::Hlc)),
        (Shape::HeadInfo, 1) => Some(Kind::Bytes),
        (Shape::HeadInfo, 2) => Some(Kind::Message(Shape::Hlc)),
        (Shape::HeadInfo, 3) => Some(Kind::Bytes),
        (Shape::HeadInfo, 4) => Some(Kind::Bytes),
        (Shape::HeadInfo, 5) => Some(Kind::Number),
        (Shape::HeadList, 1) => Some(Kind::Message(Shape::HeadInfo)),
        (Shape::LogRecord, 1) => Some(Kind::Bytes),
        (Shape::LogRecord, 2) => Some(Kind::Bytes),
        (Shape::OrphanedEntry, 1) => Some(Kind::Number),
        (Shape::OrphanedEntry, 2) => Some(Kind::Message(Shape::SignedEntry)),
        (Shape::OrphanedEntry, 3) => Some(Kind::Number),
        (Shape::DagOrphanedEntry, 1) => Some(Kind::Bytes),
        (Shape::DagOrphanedEntry, 2) => Some(Kind::Message(Shape::SignedEntry)),
        (Shape::AuthorState, 1) => Some(Kind::Number),
        (Shape::AuthorState, 2) => Some(Kind::Bytes),
        (Shape::AuthorState, 3) => Some(Kind::Message(Shape::Hlc)),
        (Shape::SyncAuthor, 1) => Some(Kind::Bytes),
        (Shape::SyncAuthor, 2) => Some(Kind::Message(Shape::AuthorState)),
        (Shape::SyncState, 1) => Some(Kind::Message(Shape::SyncAuthor)),
        (Shape::SyncState, 2) => Some(Kind::Message(Shape::Hlc)),
        (Shape::SyncState, 3) => Some(Kind::Message(Shape::Hlc)),
        (Shape::PeerSyncInfo, 1) => Some(Kind::Message(Shape::SyncState)),
        (Shape::PeerSyncInfo, 2) => Some(Kind::Number),
        (Shape::MeshInfo, 1) => Some(Kind::Number),
        (Shape::MeshInfo, 2) => Some(Kind::Number),
        (Shape::StoreMetadata, 1) => Some(Kind::Bytes),
        (Shape::StoreMetadata, 2) => Some(Kind::Number),
        (Shape::PackedHead, 1) => Some(Kind::Bytes),
        (Shape::PackedHead, 2) => Some(Kind::Number),
        (Shape::PackedHead, 3) => Some(Kind::Bytes),
        (Shape::PackedHead, 4) => Some(Kind::Bytes),
        (Shape::PackedHead, 5) => Some(Kind::Number),
        (Shape::PackedHeadList, 1) => Some(Kind::Message(Shape::PackedHead)),
        (Shape::AuthorProgress, 1) => Some(Kind::Number),
        (Shape::AuthorProgress, 2) => Some(Kind::Bytes),
        (Shape::AuthorProgress, 3) => Some(Kind::Number),
        (Shape::InviteToken, 1) => Some(Kind::Bytes),
        (Shape::InviteToken, 2) => Some(Kind::Bytes),
        (Shape::InviteToken, 3) => Some(Kind::Bytes),
        _ => None,
    }
}

/// What the field with a tag holds.
fn field_kind(shape: Shape, tag: u32) -> (r: Option<Kind>)
    ensures
        r == kind_of(shape, tag),
{
    match (shape, tag) {
        (Shape::Hlc, 1) => Some(Kind::Number),
        (Shape::Hlc, 2) => Some(Kind::Number),
        (Shape::PutOp, 1) => Some(Kind::Bytes),
        (Shape::PutOp, 2) => Some(Kind::Bytes),
        (Shape::DeleteOp, 1) => Some(Kind::Bytes),
        (Shape::Operation, 1) => Some(Kind::Message(Shape::PutOp)),
        (Shape::Operation, 2) => Some(Kind::Message(Shape::DeleteOp)),
        (Shape::Entry, 1) => Some(Kind::Number),
        (Shape::Entry, 2) => Some(Kind::Bytes),
        (Shape::Entry, 3) => Some(Kind::Bytes),
        (Shape::Entry, 4) => Some(Kind::Bytes),
        (Shape::Entry, 5) => Some(Kind::Number),
        (Shape::Entry, 6) => Some(Kind::Message(Shape::Hlc)),
        (Shape::Entry, 7) => Some(Kind::Message(Shape::Operation)),
        (Shape::SignedEntry, 1) => Some(Kind::Bytes),
        (Shape::SignedEntry, 2) => Some(Kind::Bytes),
        (Shape::SignedEntry, 3) => Some(Kind::Bytes),
        (Shape::ChainTip, 1) => Some(Kind::Number),
        (Shape::ChainTip, 2) => Some(Kind::Bytes),
        (Shape::ChainTip, 3) => Some(Kind::Message(Shape::Hlc)),
        (Shape::HeadInfo, 1) => Some(Kind::Bytes),
        (Shape::HeadInfo, 2) => Some(Kind::Message(Shape::Hlc)),
        (Shape::HeadInfo, 3) => Some(Kind::Bytes),
        (Shape::HeadInfo, 4) => Some(Kind::Bytes),
        (Shape::HeadInfo, 5) => Some(Kind::Number),
        (Shape::HeadList, 1) => Some(Kind::Message(Shape::HeadInfo)),
        (Shape::LogRecord, 1) => Some(Kind::Bytes),
        (Shape::LogRecord, 2) => Some(Kind::Bytes),
        (Shape::OrphanedEntry, 1) => Some(Kind::Number),
        (Shape::OrphanedEntry, 2) => Some(Kind::Message(Shape::SignedEntry)),
        (Shape::OrphanedEntry, 3) => Some(Kind::Number),
        (Shape::DagOrphanedEntry, 1) => Some(Kind::Bytes),
        (Shape::DagOrphanedEntry, 2) => Some(Kind::Message(Shape::SignedEntry)),
        (Shape::AuthorState, 1) => Some(Kind::Number),
        (Shape::AuthorState, 2) => Some(Kind::Bytes),
        (Shape::AuthorState, 3) => Some(Kind::Message(Shape::Hlc)),
        (Shape::SyncAuthor, 1) => Some(Kind::Bytes),
        (Shape::SyncAuthor, 2) => Some(Kind::Message(Shape::AuthorState)),
        (Shape::SyncState, 1) => Some(Kind::Message(Shape::SyncAuthor)),
        (Shape::SyncState, 2) => Some(Kind::Message(Shape::Hlc)),
        (Shape::SyncState, 3) => Some(Kind::Message(Shape::Hlc)),
        (Shape::PeerSyncInfo, 1) => Some(Kind::Message(Shape::SyncState)),
        (Shape::PeerSyncInfo, 2) => Some(Kind::Number),
        (Shape::MeshInfo, 1) => Some(Kind::Number),
        (Shape::MeshInfo, 2) => Some(Kind::Number),
        (Shape::StoreMetadata, 1) => Some(Kind::Bytes),
        (Shape::StoreMetadata, 2) => Some(Kind::Number),
        (Shape::PackedHead, 1) => Some(Kind::Bytes),
        (Shape::PackedHead, 2) => Some(Kind::Number),
        (Shape::PackedHead, 3) => Some(Kind::Bytes),
        (Shape::PackedHead, 4) => Some(Kind::Bytes),
        (Shape::PackedHead, 5) => Some(Kind::Number),
        (Shape::PackedHeadList, 1) => Some(Kind::Message(Shape::PackedHead)),
        (Shape::AuthorProgress, 1) => Some(Kind::Number),
        (Shape::AuthorProgress, 2) => Some(Kind::Bytes),
        (Shape::AuthorProgress, 3) => Some(Kind::Number),
        (Shape::InviteToken, 1) => Some(Kind::Bytes),
        (Shape::InviteToken, 2) => Some(Kind::Bytes),
        (Shape::InviteToken, 3) => Some(Kind::Bytes),
        _ => None,
    }
}

// ---------------------------------------------------------------------------
// Errors
// ---------------------------------------------------------------------------

/// A field of a message.
#[derive(Clone, Copy, Debug, PartialEq, Eq, Structural)]
pub struct Site {
    pub shape: Shape,
    pub tag: u32,
}

impl Site {
    /// The names of the message and the field.
    pub open spec fn text(self) -> Seq<char> {
        match (self.shape, self.tag) {
            (Shape::Hlc, 1) => "Hlc.wall_time"@,
            (Shape::Hlc, 2) => "Hlc.counter"@,
            (Shape::PutOp, 1) => "PutOp.key"@,
            (Shape::PutOp, 2) => "PutOp.value"@,
            (Shape::DeleteOp, 1) => "DeleteOp.key"@,
            (Shape::Operation, 1) => "Operation.op_type"@,
            (Shape::Operation, 2) => "Operation.op_type"@,
            (Shape::Entry, 1) => "Entry.version"@,
            (Shape::Entry, 2) => "Entry.store_id"@,
            (Shape::Entry, 3) => "Entry.prev_hash"@,
            (Shape::Entry, 4) => "Entry.parent_hashes"@,
            (Shape::Entry, 5) => "Entry.seq"@,
            (Shape::Entry, 6) => "Entry.timestamp"@,
            (Shape::Entry, 7) => "Entry.ops"@,
            (Shape::SignedEntry, 1) => "SignedEntry.entry_bytes"@,
            (Shape::SignedEntry, 2) => "SignedEntry.signature"@,
            (Shape::SignedEntry, 3) => "SignedEntry.author_id"@,
            (Shape::ChainTip, 1) => "ChainTip.seq"@,
            (Shape::ChainTip, 2) => "ChainTip.hash"@,
            (Shape::ChainTip, 3) => "ChainTip.hlc"@,
            (Shape::HeadInfo, 1) => "HeadInfo.value"@,
            (Shape::HeadInfo, 2) => "HeadInfo.hlc"@,
            (Shape::HeadInfo, 3) => "HeadInfo.author"@,
            (Shape::HeadInfo, 4) => "HeadInfo.hash"@,
            (Shape::HeadInfo, 5) => "HeadInfo.tombstone"@,
            (Shape::HeadList, 1) => "HeadList.heads"@,
            (Shape::LogRecord, 1) => "LogRecord.hash"@,
            (Shape::LogRecord, 2) => "LogRecord.entry_bytes"@,
            (Shape::OrphanedEntry, 1) => "OrphanedEntry.seq"@,
            (Shape::OrphanedEntry, 2) => "OrphanedEntry.entry"@,
            (Shape::OrphanedEntry, 3) => "OrphanedEntry.received_at"@,
            (Shape::DagOrphanedEntry, 1) => "DagOrphanedEntry.key"@,
            (Shape::DagOrphanedEntry, 2) => "DagOrphanedEntry.entry"@,
            (Shape::AuthorState, 1) => "AuthorState.seq"@,
            (Shape::AuthorState, 2) => "AuthorState.hash"@,
            (Shape::AuthorState, 3) => "AuthorState.hlc"@,
            (Shape::SyncAuthor, 1) => "SyncAuthor.author_id"@,
            (Shape::SyncAuthor, 2) => "SyncAuthor.state"@,
            (Shape::SyncState, 1) => "SyncState.authors"@,
            (Shape::SyncState, 2) => "SyncState.sender_hlc"@,
            (Shape::SyncState, 3) => "SyncState.common_hlc"@,
            (Shape::PeerSyncInfo, 1) => "PeerSyncInfo.sync_state"@,
            (Shape::PeerSyncInfo, 2) => "PeerSyncInfo.updated_at"@,
            (Shape::MeshInfo, 1) => "MeshInfo.joined_at"@,
            (Shape::MeshInfo, 2) => "MeshInfo.is_creator"@,
            (Shape::StoreMetadata, 1) => "StoreMetadata.mesh_id"@,
            (Shape::StoreMetadata, 2) => "StoreMetadata.created_at"@,
            (Shape::PackedHead, 1) => "HeadInfo.value"@,
            (Shape::PackedHead, 2) => "HeadInfo.hlc"@,
            (Shape::PackedHead, 3) => "HeadInfo.author"@,
            (Shape::PackedHead, 4) => "HeadInfo.hash"@,
            (Shape::PackedHead, 5) => "HeadInfo.tombstone"@,
            (Shape::PackedHeadList, 1) => "HeadList.heads"@,
            (Shape::AuthorProgress, 1) => "AuthorState.seq"@,
            (Shape::AuthorProgress, 2) => "AuthorState.hash"@,
            (Shape::AuthorProgress, 3) => "AuthorState.log_offset"@,
            (Shape::InviteToken, 1) => "InviteToken.inviter_pubkey"@,
            (Shape::InviteToken, 2) => "InviteToken.mesh_id"@,
            (Shape::InviteToken, 3) => "InviteToken.secret"@,
            _ => ""@,
        }
    }

    /// The names of the message and the field.
    fn name(&self) -> (r: &'static str)
        ensures
            r@ == self.text(),
    {
        match (self.shape, self.tag) {
            (Shape::Hlc, 1) => "Hlc.wall_time",
            (Shape::Hlc, 2) => "Hlc.counter",
            (Shape::PutOp, 1) => "PutOp.key",
            (Shape::PutOp, 2) => "PutOp.value",
            (Shape::DeleteOp, 1) => "DeleteOp.key",
            (Shape::Operation, 1) => "Operation.op_type",
            (Shape::Operation, 2) => "Operation.op_type",
            (Shape::Entry, 1) => "Entry.version",
            (Shape::Entry, 2) => "Entry.store_id",
            (Shape::Entry, 3) => "Entry.prev_hash",
            (Shape::Entry, 4) => "Entry.parent_hashes",
            (Shape::Entry, 5) => "Entry.seq",
            (Shape::Entry, 6) => "Entry.timestamp",
            (Shape::Entry, 7) => "Entry.ops",
            (Shape::SignedEntry, 1) => "SignedEntry.entry_bytes",
            (Shape::SignedEntry, 2) => "SignedEntry.signature",
            (Shape::SignedEntry, 3) => "SignedEntry.author_id",
            (Shape::ChainTip, 1) => "ChainTip.seq",
            (Shape::ChainTip, 2) => "ChainTip.hash",
            (Shape::ChainTip, 3) => "ChainTip.hlc",
            (Shape::HeadInfo, 1) => "HeadInfo.value",
            (Shape::HeadInfo, 2) => "HeadInfo.hlc",
            (Shape::HeadInfo, 3) => "HeadInfo.author",
            (Shape::HeadInfo, 4) => "HeadInfo.hash",
            (Shape::HeadInfo, 5) => "HeadInfo.tombstone",
            (Shape::HeadList, 1) => "HeadList.heads",
            (Shape::LogRecord, 1) => "LogRecord.hash",
            (Shape::LogRecord, 2) => "LogRecord.entry_bytes",
            (Shape::OrphanedEntry, 1) => "OrphanedEntry.seq",
            (Shape::OrphanedEntry, 2) => "OrphanedEntry.entry",
            (Shape::OrphanedEntry, 3) => "OrphanedEntry.received_at",
            (Shape::DagOrphanedEntry, 1) => "DagOrphanedEntry.key",
            (Shape::DagOrphanedEntry, 2) => "DagOrphanedEntry.entry",
            (Shape::AuthorState, 1) => "AuthorState.seq",
            (Shape::AuthorState, 2) => "AuthorState.hash",
            (Shape::AuthorState, 3) => "AuthorState.hlc",
            (Shape::SyncAuthor, 1) => "SyncAuthor.author_id",
            (Shape::SyncAuthor, 2) => "SyncAuthor.state",
            (Shape::SyncState, 1) => "SyncState.authors",
            (Shape::SyncState, 2) => "SyncState.sender_hlc",
            (Shape::SyncState, 3) => "SyncState.common_hlc",
            (Shape::PeerSyncInfo, 1) => "PeerSyncInfo.sync_state",
            (Shape::PeerSyncInfo, 2) => "PeerSyncInfo.updated_at",
            (Shape::MeshInfo, 1) => "MeshInfo.joined_at",
            (Shape::MeshInfo, 2) => "MeshInfo.is_creator",
            (Shape::StoreMetadata, 1) => "StoreMetadata.mesh_id",
            (Shape::StoreMetadata, 2) => "StoreMetadata.created_at",
            (Shape::PackedHead, 1) => "HeadInfo.value",
            (Shape::PackedHead, 2) => "HeadInfo.hlc",
            (Shape::PackedHead, 3) => "HeadInfo.author",
            (Shape::PackedHead, 4) => "HeadInfo.hash",
            (Shape::PackedHead, 5) => "HeadInfo.tombstone",
            (Shape::PackedHeadList, 1) => "HeadList.heads",
            (Shape::AuthorProgress, 1) => "AuthorState.seq",
            (Shape::AuthorProgress, 2) => "AuthorState.hash",
            (Shape::AuthorProgress, 3) => "AuthorState.log_offset",
            (Shape::InviteToken, 1) => "InviteToken.inviter_pubkey",
            (Shape::InviteToken, 2) => "InviteToken.mesh_id",
            (Shape::InviteToken, 3) => "InviteToken.secret",
            _ => "",
        }
    }
}

/// The fields that lead to a fault, from the innermost one out. No message of the schema
/// has more levels than there is room for.
#[derive(Clone, Copy, Debug, PartialEq, Eq, Structural)]
pub enum Trail {
    Start,
    One(Site),
    Two(Site, Site),
    Three(Site, Site, Site),
    Four(Site, Site, Site, Site),
    Five(Site, Site, Site, Site, Site),
}

impl Trail {
    /// The trail with one more field around it.
    pub open spec fn pushed(self, s: Site) -> Trail {
        match self {
            Trail::Start => Trail::One(s),
            Trail::One(a) => Trail::Two(a, s),
            Trail::Two(a, b) => Trail::Three(a, b, s),
            Trail::Three(a, b, c) => Trail::Four(a, b, c, s),
            Trail::Four(a, b, c, d) => Trail::Five(a, b, c, d, s),
            Trail::Five(a, b, c, d, e) => Trail::Five(a, b, c, d, e),
        }
    }

    /// The fields, from the innermost one out.
    pub open spec fn sites(self) -> Seq<Site> {
        match self {
            Trail::Start => Seq::empty(),
            Trail::One(a) => seq![a],
            Trail::Two(a, b) => seq![a, b],
            Trail::Three(a, b, c) => seq![a, b, c],
            Trail::Four(a, b, c, d) => seq![a, b, c, d],
            Trail::Five(a, b, c, d, e) => seq![a, b, c, d, e],
        }
    }

    /// The trail with one more field around it.
    fn push(self, s: Site) -> (r: Trail)
        ensures
            r == self.pushed(s),
    {
        match self {
            Trail::Start => Trail::One(s),
            Trail::One(a) => Trail::Two(a, s),
            Trail::Two(a, b) => Trail::Three(a, b, s),
            Trail::Three(a, b, c) => Trail::Four(a, b, c, s),
            Trail::Four(a, b, c, d) => Trail::Five(a, b, c, d, s),
            Trail::Five(a, b, c, d, e) => Trail::Five(a, b, c, d, e),
        }
    }

    /// The fields, from the innermost one out.
    fn list(self) -> (r: Vec<Site>)
        ensures
            r@ == self.sites(),
    {
        let mut out: Vec<Site> = Vec::new();
        match self {
            Trail::Start => {},
            Trail::One(a) => {
                out.push(a);
            },
            Trail::Two(a, b) => {
                out.push(a);
                out.push(b);
            },
            Trail::Three(a, b, c) => {
                out.push(a);
                out.push(b);
                out.push(c);
            },
            Trail::Four(a, b, c, d) => {
                out.push(a);
                out.push(b);
                out.push(c);
                out.push(d);
            },
            Trail::Five(a, b, c, d, e) => {
                out.push(a);
                out.push(b);
                out.push(c);
                out.push(d);
                out.push(e);
            },
        }
        assert(out@ =~= self.sites());
        out
    }
}

/// The bytes are not an encoding of the message that was asked for.
#[derive(Clone, Copy, Debug, PartialEq, Eq, Structural)]
pub struct DecodeError {
    /// What is wrong.
    pub fault: WireFault,
    /// Where it was found.
    pub trail: Trail,
}

/// A fault that was found in no field.
pub open spec fn bare(fault: WireFault) -> DecodeError {
    DecodeError { fault, trail: Trail::Start }
}

/// What names the given fields, one behind the other.
pub open spec fn sites_text(sites: Seq<Site>) -> Seq<char>
    decreases sites.len(),
{
    if sites.len() == 0 {
        Seq::empty()
    } else {
        sites_text(sites.drop_last()) + sites.last().text() + ": "@
    }
}

impl DecodeError {
    /// The error with one more field around it.
    pub open spec fn within(self, shape: Shape, tag: u32) -> DecodeError {
        DecodeError { trail: self.trail.pushed(Site { shape, tag }), ..self }
    }

    /// The text of the error: the fields that lead to the fault, and the fault.
    pub open spec fn text(self) -> Seq<char> {
        "failed to decode Protobuf message: "@ + sites_text(self.trail.sites()) + self.fault.text()
    }

    /// The error of a fault that was found in no field.
    fn of(fault: WireFault) -> (r: Self)
        ensures
            r == bare(fault),
    {
        DecodeError { fault, trail: Trail::Start }
    }

    /// The error with one more field around it.
    fn inside(self, shape: Shape, tag: u32) -> (r: Self)
        ensures
            r == self.within(shape, tag),
    {
        DecodeError { fault: self.fault, trail: self.trail.push(Site { shape, tag }) }
    }

    /// The text of the error.
    pub fn to_string(&self) -> (r: String)
        ensures
            r@ == self.text(),
    {
        let sites = self.trail.list();
        let start = "failed to decode Protobuf message: ";
        let mut out: String = start.to_owned();
        let mut i: usize = 0;
        assert(sites@.take(0) =~= Seq::empty());
        assert(out@ =~= start@ + sites_text(sites@.take(0)));
        while i < sites.len()
            invariant
                i <= sites@.len(),
                out@ == start@ + sites_text(sites@.take(i as int)),
            decreases sites@.len() - i,
        {
            let ghost before = out@;
            out = out.concat(sites[i].name()).concat(": ");
            proof {
                let upto = sites@.take(i + 1);
                assert(upto.drop_last() =~= sites@.take(i as int));
                assert(out@ =~= start@ + sites_text(upto));
            }
            i += 1;
        }
        assert(sites@.take(i as int) =~= sites@);
        out.concat(self.fault.to_string().as_str())
    }
}

// ---------------------------------------------------------------------------
// Faults
// ---------------------------------------------------------------------------

/// What is wrong with the message that the first `n` bytes of `s` are to encode. Its fields
/// are read one after the other, and may run past its end before that is found out.
pub open spec fn checked(shape: Shape, s: Seq<u8>, n: nat, depth: u32) -> Result<(), DecodeError>
    decreases depth, n,
{
    if n == 0 {
        Ok(())
    } else {
        match wire::key_at(s) {
            Err(f) => Err(bare(f)),
            Ok((tag, wire, k)) => match field_checked(shape, tag, wire, s.skip(k as int), depth) {
                Err(e) => Err(e),
                Ok(m) => if k == 0 || k + m > n {
                    Err(bare(WireFault::LengthExceeded))
                } else {
                    checked(shape, s.skip((k + m) as int), (n - k - m) as nat, depth)
                },
            },
        }
    }
}

/// What is wrong with the payload at the start of `s` of a message's field, or how many
/// bytes it takes.
pub open spec fn field_checked(shape: Shape, tag: u32, wire: u64, s: Seq<u8>, depth: u32) -> Result<
    nat,
    DecodeError,
>
    decreases depth, 0nat,
{
    match kind_of(shape, tag) {
        None => match wire::skipped(wire, tag, s, depth) {
            Err(f) => Err(bare(f)),
            Ok(m) => Ok(m),
        },
        Some(kind) => if wire != kind.wire() {
            Err(bare(WireFault::WrongWireType(wire, kind.wire())).within(shape, tag))
        } else {
            match kind {
                Kind::Number => match wire::varint_from(s, 0) {
                    None => Err(bare(WireFault::InvalidVarint).within(shape, tag)),
                    Some((_, m)) => Ok(m),
                },
                Kind::Bytes => match wire::length_at(s) {
                    Err(f) => Err(bare(f).within(shape, tag)),
                    Ok((m, len)) => Ok(m + len),
                },
                Kind::Message(inner) => if depth == 0 {
                    Err(bare(WireFault::NestingLimit).within(shape, tag))
                } else {
                    match wire::length_at(s) {
                        Err(f) => Err(bare(f).within(shape, tag)),
                        Ok((m, len)) => match checked(
                            inner,
                            s.skip(m as int),
                            len,
                            (depth - 1) as u32,
                        ) {
                            Err(e) => Err(e.within(shape, tag)),
                            Ok(()) => Ok(m + len),
                        },
                    }
                },
            }
        },
    }
}

/// A message is found sound alike where the bytes end anywhere behind it.
proof fn lemma_checked_take(shape: Shape, s: Seq<u8>, n: nat, depth: u32, t: int)
    requires
        checked(shape, s, n, depth) is Ok,
        n <= t <= s.len(),
    ensures
        checked(shape, s.take(t), n, depth) is Ok,
    decreases depth, n,
{
    if n > 0 {
        let (tag, wire, k) = wire::key_at(s)->Ok_0;
        let rest = s.skip(k as int);
        let m = field_checked(shape, tag, wire, rest, depth)->Ok_0;
        wire::lemma_varint_take(s, 0, t);
        assert(s.take(t).skip(k as int) =~= rest.take(t - k));
        lemma_field_take(shape, tag, wire, rest, depth, t - k);
        let more = s.skip((k + m) as int);
        assert(s.take(t).skip((k + m) as int) =~= more.take(t - k - m));
        lemma_checked_take(shape, more, (n - k - m) as nat, depth, t - k - m);
    }
}

proof fn lemma_field_take(shape: Shape, tag: u32, wire: u64, s: Seq<u8>, depth: u32, t: int)
    requires
        field_checked(shape, tag, wire, s, depth) matches Ok(m) && m <= t,
        t <= s.len(),
    ensures
        field_checked(shape, tag, wire, s.take(t), depth) == field_checked(
            shape,
            tag,
            wire,
            s,
            depth,
        ),
    decreases depth, 0nat,
{
    match kind_of(shape, tag) {
        None => {
            wire::lemma_skipped_take(wire, tag, s, depth, t);
        },
        Some(Kind::Message(inner)) => {
            wire::lemma_varint_take(s, 0, t);
            let (n, len) = wire::length_at(s)->Ok_0;
            let rest = s.skip(n as int);
            assert(s.take(t).skip(n as int) =~= rest.take(t - n));
            lemma_checked_take(inner, rest, len, (depth - 1) as u32, t - n);
        },
        Some(_) => {
            wire::lemma_varint_take(s, 0, t);
        },
    }
}

/// Whether a field's payload is what the message asks for, and sound.
pub open spec fn conforms(shape: Shape, f: FieldModel, depth: u32) -> bool {
    match kind_of(shape, f.tag) {
        None => true,
        Some(Kind::Number) => f.value is Varint,
        Some(Kind::Bytes) => f.value is Bytes,
        Some(Kind::Message(inner)) => depth > 0 && (f.value matches ValueModel::Bytes(b)
            && checked(inner, b, b.len(), (depth - 1) as u32) is Ok),
    }
}

/// What is found sound is a run of fields, each of which is what the message asks for.
pub proof fn lemma_checked_fields(shape: Shape, s: Seq<u8>, depth: u32)
    requires
        checked(shape, s, s.len(), depth) is Ok,
    ensures
        wire::fields_of(s, depth) matches Some(fields) && forall|i: int|
            0 <= i < fields.len() ==> conforms(shape, #[trigger] fields[i], depth),
    decreases s.len(),
{
    if s.len() > 0 {
        let (tag, wire, k) = wire::key_at(s)->Ok_0;
        wire::lemma_varint_from_bounds(s, 0);
        let rest = s.skip(k as int);
        let m = field_checked(shape, tag, wire, rest, depth)->Ok_0;
        let more = s.skip((k + m) as int);
        lemma_checked_fields(shape, more, depth);
        wire::lemma_varint_from_bounds(rest, 0);
        if let Some(Kind::Message(inner)) = kind_of(shape, tag) {
            let (n, len) = wire::length_at(rest)->Ok_0;
            lemma_checked_take(inner, rest.skip(n as int), len, (depth - 1) as u32, len as int);
            assert(rest.subrange(n as int, (n + len) as int) =~= rest.skip(n as int).take(
                len as int,
            ));
        }
        let (f, _) = wire::field_at(s, depth)->0;
        assert(wire::field_at(s, depth) == Some((f, k + m)));
        assert(conforms(shape, f, depth));
        let after = wire::fields_of(more, depth)->0;
        let fields = seq![f] + after;
        assert forall|i: int| 0 <= i < fields.len() implies conforms(
            shape,
            #[trigger] fields[i],
            depth,
        ) by {
            if i > 0 {
                assert(fields[i] == after[i - 1]);
            }
        }
    }
}

/// How many levels a message has, itself included.
pub open spec fn levels(shape: Shape) -> nat {
    match shape {
        Shape::Operation | Shape::ChainTip | Shape::HeadInfo | Shape::OrphanedEntry | Shape::DagOrphanedEntry | Shape::AuthorState | Shape::PackedHeadList => 2,
        Shape::Entry | Shape::HeadList | Shape::SyncAuthor => 3,
        Shape::SyncState => 4,
        Shape::PeerSyncInfo => 5,
        _ => 1,
    }
}

/// The trail of a fault is whole: there is room for a field of every level.
pub proof fn law_trail_is_whole(shape: Shape, s: Seq<u8>, n: nat, depth: u32)
    ensures
        checked(shape, s, n, depth) matches Err(e) ==> e.trail.sites().len() <= levels(shape),
        forall|t: Trail, site: Site|
            t.sites().len() < levels(Shape::PeerSyncInfo) ==> (#[trigger] t.pushed(site)).sites()
                == t.sites().push(site),
        levels(shape) <= levels(Shape::PeerSyncInfo),
    decreases depth, n,
{
    assert forall|t: Trail, site: Site|
        t.sites().len() < levels(Shape::PeerSyncInfo) implies (#[trigger] t.pushed(site)).sites()
        == t.sites().push(site) by {
        assert(t.pushed(site).sites() =~= t.sites().push(site));
    }
    if n > 0 {
        if let Ok((tag, wire, k)) = wire::key_at(s) {
            let rest = s.skip(k as int);
            lemma_field_trail(shape, tag, wire, rest, depth);
            if let Ok(m) = field_checked(shape, tag, wire, rest, depth) {
                if k > 0 && k + m <= n {
                    law_trail_is_whole(shape, s.skip((k + m) as int), (n - k - m) as nat, depth);
                }
            }
        }
    }
}

proof fn lemma_field_trail(shape: Shape, tag: u32, wire: u64, s: Seq<u8>, depth: u32)
    ensures
        field_checked(shape, tag, wire, s, depth) matches Err(e) ==> e.trail.sites().len()
            <= levels(shape),
    decreases depth, 0nat,
{
    if let Some(Kind::Message(inner)) = kind_of(shape, tag) {
        assert(levels(inner) < levels(shape));
        if depth > 0 {
            if let Ok((m, len)) = wire::length_at(s) {
                law_trail_is_whole(inner, s.skip(m as int), len, (depth - 1) as u32);
            }
        }
    }
}

/// Finds out what is wrong with the message that the first `n` bytes of `s` are to encode.
fn check(shape: Shape, s: &[u8], n: usize, depth: u32) -> (r: Result<(), DecodeError>)
    requires
        n <= s@.len(),
    ensures
        r == checked(shape, s@, n as nat, depth),
    decreases depth, n,
{
    let mut at: usize = 0;
    assert(s@.skip(0) =~= s@);
    while at < n
        invariant
            at <= n <= s@.len(),
            checked(shape, s@, n as nat, depth) == checked(
                shape,
                s@.skip(at as int),
                (n - at) as nat,
                depth,
            ),
        decreases n - at,
    {
        let rest = slice_from(s, at);
        let left: usize = rest.len();
        let (tag, wire, k) = match get_key(rest) {
            Ok(key) => key,
            Err(f) => {
                return Err(DecodeError::of(f));
            },
        };
        let m: usize = match check_field(shape, tag, wire, slice_from(rest, k), depth) {
            Ok(m) => m,
            Err(e) => {
                return Err(e);
            },
        };
        assert(k + m <= left);
        if k + m > n - at {
            return Err(DecodeError::of(WireFault::LengthExceeded));
        }
        assert(rest@.skip(k + m) =~= s@.skip(at + k + m));
        at = at + k + m;
    }
    Ok(())
}

/// Finds out what is wrong with the payload at the start of `s`, or how many bytes it takes.
fn check_field(shape: Shape, tag: u32, wire: u64, s: &[u8], depth: u32) -> (r: Result<
    usize,
    DecodeError,
>)
    ensures
        match field_checked(shape, tag, wire, s@, depth) {
            Ok(m) => r matches Ok(x) && x == m && m <= s@.len(),
            Err(e) => r == Err::<usize, DecodeError>(e),
        },
    decreases depth, 0nat,
{
    let total: usize = s.len();
    proof {
        wire::lemma_varint_from_bounds(s@, 0);
    }
    match field_kind(shape, tag) {
        None => match skip_payload(wire, tag, s, depth) {
            Ok(m) => Ok(m),
            Err(f) => Err(DecodeError::of(f)),
        },
        Some(kind) => {
            let expected: u64 = match kind {
                Kind::Number => 0,
                _ => 2,
            };
            if wire != expected {
                return Err(
                    DecodeError::of(WireFault::WrongWireType(wire, expected)).inside(shape, tag),
                );
            }
            match kind {
                Kind::Number => match get_varint(s) {
                    None => Err(DecodeError::of(WireFault::InvalidVarint).inside(shape, tag)),
                    Some((_, left)) => Ok(s.len() - left),
                },
                Kind::Bytes => match get_length(s) {
                    Err(f) => Err(DecodeError::of(f).inside(shape, tag)),
                    Ok((m, len)) => {
                        assert(m + len <= total);
                        Ok(m + len)
                    },
                },
                Kind::Message(inner) => {
                    if depth == 0 {
                        return Err(DecodeError::of(WireFault::NestingLimit).inside(shape, tag));
                    }
                    match get_length(s) {
                        Err(f) => Err(DecodeError::of(f).inside(shape, tag)),
                        Ok((m, len)) => match check(inner, slice_from(s, m), len, depth - 1) {
                            Err(e) => Err(e.inside(shape, tag)),
                            Ok(()) => {
                                assert(m + len <= total);
                                Ok(m + len)
                            },
                        },
                    }
                },
            }
        },
    }
}

/// Why `s` is no encoding of the message: the first fault that reading it meets.
#[verifier::opaque]
pub open spec fn error_in(shape: Shape, s: Seq<u8>) -> DecodeError {
    checked(shape, s, s.len(), wire::NESTING_LIMIT)->Err_0
}

/// Finds out why `s` is no encoding of the message.
pub(crate) fn find_error(shape: Shape, s: &[u8]) -> (r: DecodeError)
    requires
        checked(shape, s@, s@.len(), wire::NESTING_LIMIT) is Err,
    ensures
        r == error_in(shape, s@),
{
    reveal(error_in);
    match check(shape, s, s.len(), wire::NESTING_LIMIT) {
        Err(e) => e,
        Ok(()) => DecodeError::of(WireFault::InvalidVarint),
    }
}

/// A known field of another wire type than its own is refused wherever a field may stand, and
/// a field of a message that does not know it is passed over.
pub proof fn law_field_is_of_its_wire_type(
    shape: Shape,
    s: Seq<u8>,
    n: nat,
    depth: u32,
    tag: u32,
    wire: u64,
    k: nat,
)
    requires
        n > 0,
        wire::key_at(s) == Ok::<(u32, u64, nat), WireFault>((tag, wire, k)),
    ensures
        kind_of(shape, tag) is None ==> (wire::skipped(wire, tag, s.skip(k as int), depth) matches Ok(
            m,
        ) ==> (0 < k && k + m <= n ==> checked(shape, s, n, depth) == checked(
            shape,
            s.skip((k + m) as int),
            (n - k - m) as nat,
            depth,
        ))),
        kind_of(shape, tag) == Some(Kind::Number) && wire != 0 ==> checked(shape, s, n, depth)
            is Err,
        kind_of(shape, tag) == Some(Kind::Bytes) && wire != 2 ==> checked(shape, s, n, depth)
            is Err,
        (kind_of(shape, tag) matches Some(Kind::Message(_))) && wire != 2 ==> checked(
            shape,
            s,
            n,
            depth,
        ) is Err,
{
    reveal_with_fuel(checked, 2);
    reveal_with_fuel(field_checked, 2);
}

} // verus!
