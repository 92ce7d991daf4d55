//! Invite tokens: an invitation into a mesh, as a text that can be passed on.
use crate::bytes::{to_array16, to_array32, to_vec, PubKey, Uuid};
use crate::message;
use crate::proto::network;
use crate::proto::network::{InviteToken, InviteTokenModel};
use crate::wire::slice_from;
use vstd::prelude::*;
use vstd::string::*;

verus! {

/// The version byte of a token, the letter L.
pub const TOKEN_VERSION: u8 = 0x4C;

/// The Base58Check text of a version byte and a payload.
pub uninterp spec fn base58_text(version: u8, payload: Seq<u8>) -> Seq<char>;

/// The version byte and the payload that a Base58Check text with that version
/// stands for, or the text of the error.
pub uninterp spec fn base58_bytes(token: Seq<char>, version: u8) -> Result<Seq<u8>, Seq<char>>;

/// Whether a text stands for a version byte and a payload.
pub open spec fn stands_for(token: Seq<char>, version: u8, payload: Seq<u8>) -> bool {
    base58_bytes(token, version) == Ok::<Seq<u8>, Seq<char>>(seq![version] + payload)
}

/// Calls `bs58::encode` with `with_check_version`. The text depends on the
/// version and the payload alone, and stands for the two of them.
#[verifier::external_body]
fn base58_encode(payload: &[u8], version: u8) -> (r: String)
    ensures
        r@ == base58_text(version, payload@),
        stands_for(r@, version, payload@),
{
    bs58::encode(payload).with_check_version(version).into_string()
}

/// Calls `bs58::decode` with `with_check`. What comes out, the version byte
/// followed by the payload, depends on the text and the version alone.
#[verifier::external_body]
fn base58_decode(token: &str, version: u8) -> (r: Result<Vec<u8>, String>)
    ensures
        match base58_bytes(token@, version) {
            Ok(b) => r matches Ok(v) && v@ == b,
            Err(why) => r matches Err(t) && t@ == why,
        },
{
    bs58::decode(token).with_check(Some(version)).into_vec().map_err(|e| e.to_string())
}

/// An invitation into a mesh.
#[derive(Debug, PartialEq, Eq)]
pub struct Invite {
    /// Who invites.
    pub inviter: PubKey,
    /// The mesh.
    pub mesh_id: Uuid,
    /// The secret that lets the guest in.
    pub secret: Vec<u8>,
}

/// The model of [`Invite`].
pub struct InviteModel {
    pub inviter: Seq<u8>,
    pub mesh_id: Seq<u8>,
    pub secret: Seq<u8>,
}

impl View for Invite {
    type V = InviteModel;

    open spec fn view(&self) -> InviteModel {
        InviteModel { inviter: self.inviter@, mesh_id: self.mesh_id@, secret: self.secret@ }
    }
}

impl InviteModel {
    /// The invitation as a message.
    pub open spec fn to_proto(self) -> InviteTokenModel {
        InviteTokenModel {
            inviter_pubkey: self.inviter,
            mesh_id: self.mesh_id,
            secret: self.secret,
        }
    }

    /// The bytes of the invitation.
    pub open spec fn encoding(self) -> Seq<u8> {
        message::encoded::<InviteToken>(self.to_proto())
    }

    /// The invitation that bytes stand for, or the text of the error.
    pub open spec fn of_bytes(b: Seq<u8>) -> Result<InviteModel, Seq<char>> {
        match message::decoded::<InviteToken>(b) {
            None => Err(
                "Protobuf decode failed: "@ + message::decode_error::<InviteToken>(b).text(),
            ),
            Some(t) => if t.inviter_pubkey.len() != 32 {
                Err("Invalid inviter pubkey length"@)
            } else if t.mesh_id.len() != 16 {
                Err("Invalid mesh ID length"@)
            } else {
                Ok(
                    InviteModel {
                        inviter: t.inviter_pubkey,
                        mesh_id: t.mesh_id,
                        secret: t.secret,
                    },
                )
            },
        }
    }

    /// The invitation behind a version byte, or the text of the error.
    pub open spec fn of_versioned(decoded: Result<Seq<u8>, Seq<char>>) -> Result<
        InviteModel,
        Seq<char>,
    > {
        match decoded {
            Err(why) => Err("Invalid token: "@ + why),
            Ok(b) => InviteModel::of_bytes(
                if b.len() > 0 {
                    b.skip(1)
                } else {
                    b
                },
            ),
        }
    }
}

impl Clone for Invite {
    fn clone(&self) -> (r: Self)
        ensures
            r@ == self@,
    {
        Invite {
            inviter: self.inviter,
            mesh_id: self.mesh_id,
            secret: to_vec(self.secret.as_slice()),
        }
    }
}

/// The bytes of an invitation stand for it.
pub proof fn law_invite_bytes_round_trip(m: InviteModel)
    requires
        m.inviter.len() == 32,
        m.mesh_id.len() == 16,
        m.encoding().len() <= u64::MAX,
    ensures
        InviteModel::of_bytes(m.encoding()) == Ok::<InviteModel, Seq<char>>(m),
{
    network::law_invite_token_round_trip(m.to_proto());
}

impl Invite {
    /// An invitation.
    pub fn new(inviter: PubKey, mesh_id: Uuid, secret: Vec<u8>) -> (r: Self)
        ensures
            r@ == (InviteModel { inviter: inviter@, mesh_id: mesh_id@, secret: secret@ }),
    {
        Invite { inviter, mesh_id, secret }
    }

    /// The token of the invitation, from which it can be parsed again.
    pub fn to_string(&self) -> (r: String)
        ensures
            r@ == base58_text(TOKEN_VERSION, self@.encoding()),
            self@.encoding().len() <= u64::MAX ==> InviteModel::of_versioned(
                base58_bytes(r@, TOKEN_VERSION),
            ) == Ok::<InviteModel, Seq<char>>(self@),
    {
        let proto = InviteToken {
            inviter_pubkey: to_vec(self.inviter.as_slice()),
            mesh_id: to_vec(self.mesh_id.as_slice()),
            secret: to_vec(self.secret.as_slice()),
        };
        let bytes = message::encode(&proto);
        let r = base58_encode(bytes.as_slice(), TOKEN_VERSION);
        proof {
            if self@.encoding().len() <= u64::MAX {
                law_invite_bytes_round_trip(self@);
                let b = seq![TOKEN_VERSION] + bytes@;
                assert(b.skip(1) =~= bytes@);
            }
        }
        r
    }

    /// The invitation behind a version byte, or the text of the error.
    pub fn from_versioned(decoded: Result<Vec<u8>, String>) -> (r: Result<Self, String>)
        ensures
            match InviteModel::of_versioned(
                match decoded {
                    Ok(b) => Ok(b@),
                    Err(why) => Err(why@),
                },
            ) {
                Ok(m) => r matches Ok(x) && x@ == m,
                Err(text) => r matches Err(t) && t@ == text,
            },
    {
        let bytes = match decoded {
            Ok(bytes) => bytes,
            Err(why) => {
                return Err("Invalid token: ".to_owned().concat(why.as_str()));
            },
        };
        let from: usize = if bytes.len() > 0 {
            1
        } else {
            0
        };
        let payload = slice_from(bytes.as_slice(), from);
        assert(payload@ =~= if bytes@.len() > 0 {
            bytes@.skip(1)
        } else {
            bytes@
        });
        let token = match message::decode::<InviteToken>(payload) {
            Ok(token) => token,
            Err(e) => {
                return Err("Protobuf decode failed: ".to_owned().concat(e.to_string().as_str()));
            },
        };
        if token.inviter_pubkey.len() != 32 {
            return Err("Invalid inviter pubkey length".to_owned());
        }
        if token.mesh_id.len() != 16 {
            return Err("Invalid mesh ID length".to_owned());
        }
        let inviter: PubKey = to_array32(token.inviter_pubkey.as_slice());
        let mesh_id: Uuid = to_array16(token.mesh_id.as_slice());
        Ok(Invite { inviter, mesh_id, secret: token.secret })
    }

    /// The invitation that a token stands for, or the text of the error.
    pub fn parse(input: &str) -> (r: Result<Self, String>)
        ensures
            match InviteModel::of_versioned(base58_bytes(input@, TOKEN_VERSION)) {
                Ok(m) => r matches Ok(x) && x@ == m,
                Err(text) => r matches Err(t) && t@ == text,
            },
    {
        Invite::from_versioned(base58_decode(input, TOKEN_VERSION))
    }
}

/// What is read from the bytes of an invitation are the three fields that they hold, where
/// the inviter is a public key and the mesh an identifier; otherwise they are refused.
pub proof fn law_invitation_is_what_its_bytes_hold(b: Seq<u8>)
    ensures
        message::decoded::<InviteToken>(b) is None ==> InviteModel::of_bytes(b) is Err,
        message::decoded::<InviteToken>(b) matches Some(t) ==> {
            &&& InviteModel::of_bytes(b) is Ok <==> t.inviter_pubkey.len() == 32 && t.mesh_id.len()
                == 16
            &&& InviteModel::of_bytes(b) matches Ok(m) ==> m.inviter == t.inviter_pubkey
                && m.mesh_id == t.mesh_id && m.secret == t.secret
        },
{
}

/// An invitation is read from what is behind the version byte; a token that cannot be decoded
/// is refused.
pub proof fn law_version_is_left_out(version: u8, payload: Seq<u8>, why: Seq<char>)
    ensures
        InviteModel::of_versioned(Ok(seq![version] + payload)) == InviteModel::of_bytes(payload),
        InviteModel::of_versioned(Err(why)) is Err,
{
    assert((seq![version] + payload).skip(1) =~= payload);
}

} // verus!
