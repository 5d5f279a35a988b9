//! The protocol vocabulary: group kinds, join and connect credentials, the
//! layer events exchanged with peers, and the network message payloads.
//!
//! All of these are tagged unions with stable ordinals; the byte-level
//! framing of the wire is left to the transport adapter, which hands the
//! layer already-decoded values and serialises what the layer answers.

use vstd::prelude::*;

use crate::ids::{GroupId, PeerAddr, Proof};

verus! {

/// Where a group is hosted: on a relay server or only on the owner device.
#[derive(Clone, Copy, Debug, PartialEq, Eq, Structural)]
pub enum GroupLocation {
    Remote,
    Local,
}

impl GroupLocation {
    /// Stable ordinal of the location.
    pub fn to_u32(&self) -> (r: u32)
        ensures
            r == (match self {
                GroupLocation::Remote => 0u32,
                GroupLocation::Local => 1u32,
            }),
    {
        match self {
            GroupLocation::Remote => 0,
            GroupLocation::Local => 1,
        }
    }

    /// Reads an ordinal back; unknown ordinals fall back to `Remote`.
    pub fn from_u32(u: u32) -> (r: Self)
        ensures
            r == (if u == 1 {
                GroupLocation::Local
            } else {
                GroupLocation::Remote
            }),
    {
        match u {
            1 => GroupLocation::Local,
            _ => GroupLocation::Remote,
        }
    }
}

/// The three kinds of group chat.
#[derive(Clone, Copy, Debug, PartialEq, Eq, Structural)]
pub enum GroupType {
    /// Encrypted payloads; admission needs a manager or a zero-knowledge proof.
    Encrypted,
    /// Plain payloads; admission needs a manager's agreement.
    Private,
    /// Plain payloads; anyone may join.
    Open,
}

impl GroupType {
    /// Stable ordinal of the group kind.
    pub fn to_u32(&self) -> (r: u32)
        ensures
            r == (match self {
                GroupType::Encrypted => 0u32,
                GroupType::Private => 1u32,
                GroupType::Open => 2u32,
            }),
    {
        match self {
            GroupType::Encrypted => 0,
            GroupType::Private => 1,
            GroupType::Open => 2,
        }
    }

    /// Reads an ordinal back; unknown ordinals fall back to `Encrypted`.
    pub fn from_u32(u: u32) -> (r: Self)
        ensures
            r == (if u == 1 {
                GroupType::Private
            } else if u == 2 {
                GroupType::Open
            } else {
                GroupType::Encrypted
            }),
    {
        match u {
            1 => GroupType::Private,
            2 => GroupType::Open,
            _ => GroupType::Encrypted,
        }
    }
}

/// Answer to a creation permission check.
#[derive(Clone, Copy, Debug, PartialEq, Eq, Structural)]
pub enum CheckType {
    /// May create a new group.
    Allow,
    /// May not create: no creations left.
    Exhausted,
    /// May not create: the account is suspended.
    Suspend,
    /// May not create: no permission at all.
    Deny,
}

impl CheckType {
    /// Stable ordinal of the answer.
    pub fn to_u32(&self) -> (r: u32)
        ensures
            r == (match self {
                CheckType::Allow => 0u32,
                CheckType::Exhausted => 1u32,
                CheckType::Suspend => 2u32,
                CheckType::Deny => 3u32,
            }),
    {
        match self {
            CheckType::Allow => 0,
            CheckType::Exhausted => 1,
            CheckType::Suspend => 2,
            CheckType::Deny => 3,
        }
    }
}

/// Description of a group carried by create and agree messages.
#[derive(Debug)]
pub enum GroupInfo {
    /// Owner, owner name, owner avatar, group id, group kind, whether a
    /// manager must agree to invitations, group name, group bio, group
    /// avatar.
    Common(GroupId, String, Vec<u8>, GroupId, GroupType, bool, String, String, Vec<u8>),
    /// Owner, owner name, owner avatar, group id, whether a manager must
    /// agree, key hash, encrypted name, encrypted bio, encrypted avatar.
    Encrypted(GroupId, String, Vec<u8>, GroupId, bool, Vec<u8>, Vec<u8>, Vec<u8>, Vec<u8>),
}

/// A connect request: group id and the connect credential.
#[derive(Debug)]
pub struct LayerConnect(pub GroupId, pub ConnectProof);

/// A successful connect reply: group id and the group's current height.
#[derive(Debug)]
pub struct LayerResult(pub GroupId, pub i64);

/// Credential presented when connecting to a group.
#[derive(Debug)]
pub enum ConnectProof {
    /// An already-joined member proves its identity.
    Common(Proof),
    /// Reserved zero-knowledge variant; accepted but not acted upon.
    Zkp(Proof),
}

/// Credential presented when asking to join a group.
#[derive(Debug)]
pub enum JoinProof {
    /// Join an open group: member name and avatar.
    Open(String, Vec<u8>),
    /// Join by invitation: inviter, inviter's proof, member name, avatar.
    Invite(GroupId, Proof, String, Vec<u8>),
    /// Reserved zero-knowledge variant; accepted but not acted upon.
    Zkp(Proof),
}

/// A message payload as it travels between peers.
#[derive(Debug)]
pub enum NetworkMessage {
    String(String),
    Image(Vec<u8>),
    /// File name and file bytes.
    File(String, Vec<u8>),
    /// Contact name, contact id, contact address, contact avatar bytes.
    Contact(String, GroupId, PeerAddr, Vec<u8>),
    /// Voice record bytes and duration.
    Record(Vec<u8>, u32),
    Emoji,
    Phone,
    Video,
    Invite(String),
    Empty,
}

/// Mathematical shape of a network message, used by the codec contracts.
pub enum NetworkMessageV {
    String(Seq<char>),
    Image(Seq<u8>),
    File(Seq<char>, Seq<u8>),
    Contact(Seq<char>, Seq<u8>, Seq<u8>, Seq<u8>),
    Record(Seq<u8>, u32),
    Emoji,
    Phone,
    Video,
    Invite(Seq<char>),
    Empty,
}

impl View for NetworkMessage {
    type V = NetworkMessageV;

    open spec fn view(&self) -> NetworkMessageV {
        match self {
            NetworkMessage::String(s) => NetworkMessageV::String(s@),
            NetworkMessage::Image(b) => NetworkMessageV::Image(b@),
            NetworkMessage::File(n, b) => NetworkMessageV::File(n@, b@),
            NetworkMessage::Contact(n, g, a, av) => NetworkMessageV::Contact(n@, g@, a@, av@),
            NetworkMessage::Record(b, t) => NetworkMessageV::Record(b@, *t),
            NetworkMessage::Emoji => NetworkMessageV::Emoji,
            NetworkMessage::Phone => NetworkMessageV::Phone,
            NetworkMessage::Video => NetworkMessageV::Video,
            NetworkMessage::Invite(s) => NetworkMessageV::Invite(s@),
            NetworkMessage::Empty => NetworkMessageV::Empty,
        }
    }
}

/// A group event that is appended to the consensus log.
#[derive(Debug)]
pub enum Event {
    GroupInfo,
    GroupTransfer,
    GroupManagerAdd,
    GroupManagerDel,
    GroupClose,
    /// Member id, member address, member name, member avatar.
    MemberInfo(GroupId, PeerAddr, String, Vec<u8>),
    /// Member id, member address, member name, member avatar, join time.
    MemberJoin(GroupId, PeerAddr, String, Vec<u8>, i64),
    /// Member id.
    MemberLeave(GroupId),
    /// Sender member id, message, sender's height.
    MessageCreate(GroupId, NetworkMessage, i64),
}

/// A replayed log entry, materialised with its blob sidecars for peers that
/// synchronise.
#[derive(Debug)]
pub enum PackedEvent {
    GroupInfo,
    GroupTransfer,
    GroupManagerAdd,
    GroupManagerDel,
    GroupClose,
    /// Member id, member address, member name, member avatar.
    MemberInfo(GroupId, PeerAddr, String, Vec<u8>),
    /// Member id, member address, member name, member avatar, join time.
    MemberJoin(GroupId, PeerAddr, String, Vec<u8>, i64),
    /// Member id.
    MemberLeave(GroupId),
    /// Sender member id, message, message time.
    MessageCreate(GroupId, NetworkMessage, i64),
    Empty,
}

/// Mathematical shape of a packed event, used by the log replay contracts.
pub enum PackedEventV {
    GroupInfo,
    GroupTransfer,
    GroupManagerAdd,
    GroupManagerDel,
    GroupClose,
    MemberInfo(Seq<u8>, Seq<u8>, Seq<char>, Seq<u8>),
    MemberJoin(Seq<u8>, Seq<u8>, Seq<char>, Seq<u8>, i64),
    MemberLeave(Seq<u8>),
    MessageCreate(Seq<u8>, NetworkMessageV, i64),
    Empty,
}

impl View for PackedEvent {
    type V = PackedEventV;

    open spec fn view(&self) -> PackedEventV {
        match self {
            PackedEvent::GroupInfo => PackedEventV::GroupInfo,
            PackedEvent::GroupTransfer => PackedEventV::GroupTransfer,
            PackedEvent::GroupManagerAdd => PackedEventV::GroupManagerAdd,
            PackedEvent::GroupManagerDel => PackedEventV::GroupManagerDel,
            PackedEvent::GroupClose => PackedEventV::GroupClose,
            PackedEvent::MemberInfo(m, a, n, av) => PackedEventV::MemberInfo(m@, a@, n@, av@),
            PackedEvent::MemberJoin(m, a, n, av, t) => PackedEventV::MemberJoin(
                m@,
                a@,
                n@,
                av@,
                *t,
            ),
            PackedEvent::MemberLeave(m) => PackedEventV::MemberLeave(m@),
            PackedEvent::MessageCreate(m, msg, t) => PackedEventV::MessageCreate(m@, msg@, *t),
            PackedEvent::Empty => PackedEventV::Empty,
        }
    }
}

/// Everything the group-chat layer can receive from or push to a peer.
#[derive(Debug)]
pub enum LayerEvent {
    /// The sender goes offline in the given group.
    Offline(GroupId),
    /// Reserved.
    Suspend(GroupId),
    /// Reserved.
    Actived(GroupId),
    /// Ask whether the sender may create groups.
    Check,
    /// Answer to `Check`: verdict, provider name, remaining creations,
    /// supported group kinds.
    CheckResult(CheckType, String, i64, Vec<GroupType>),
    /// Create a group chat.
    Create(GroupInfo, Proof),
    /// Answer to `Create`: group id and whether it was created.
    CreateResult(GroupId, bool),
    /// Ask to join a group.
    Request(GroupId, JoinProof),
    /// Pushed to managers: group id, joiner id, joiner address, join proof,
    /// request row id, request time.
    RequestHandle(GroupId, GroupId, PeerAddr, JoinProof, i64, i64),
    /// A manager's decision on a request: group id, request row id, verdict.
    RequestResult(GroupId, i64, bool),
    /// Admission confirmed, with the group description.
    Agree(GroupId, GroupInfo),
    /// Admission refused; the flag tells whether the request is lost for good.
    Reject(GroupId, bool),
    /// A member came online: group id, member id, member address.
    MemberOnline(GroupId, GroupId, PeerAddr),
    /// A member went offline: group id, member id.
    MemberOffline(GroupId, GroupId),
    /// Ask for the online roster.
    MemberOnlineSync(GroupId),
    /// The online roster: group id, member ids with their addresses.
    MemberOnlineSyncResult(GroupId, Vec<(GroupId, PeerAddr)>),
    /// A log event at its assigned height.
    Sync(GroupId, i64, Event),
    /// Ask for the packed log above the given height.
    SyncReq(GroupId, i64),
    /// Packed log reply: group id, current height, from, to, events.
    Packed(GroupId, i64, i64, i64, Vec<PackedEvent>),
}

impl LayerEvent {
    /// The group id an event speaks about, when it names one.
    pub fn gcd(&self) -> (r: Option<&GroupId>)
        ensures
            r is Some <==> !(self is Check || self is CheckResult || self is Create),
    {
        match self {
            Self::Offline(gcd) => Some(gcd),
            Self::Suspend(gcd) => Some(gcd),
            Self::Actived(gcd) => Some(gcd),
            Self::Check => None,
            Self::CheckResult(..) => None,
            Self::Create(..) => None,
            Self::CreateResult(gcd, _) => Some(gcd),
            Self::Request(gcd, _) => Some(gcd),
            Self::RequestHandle(gcd, ..) => Some(gcd),
            Self::RequestResult(gcd, ..) => Some(gcd),
            Self::Agree(gcd, ..) => Some(gcd),
            Self::Reject(gcd, ..) => Some(gcd),
            Self::MemberOnline(gcd, ..) => Some(gcd),
            Self::MemberOffline(gcd, ..) => Some(gcd),
            Self::MemberOnlineSync(gcd) => Some(gcd),
            Self::MemberOnlineSyncResult(gcd, ..) => Some(gcd),
            Self::Sync(gcd, ..) => Some(gcd),
            Self::SyncReq(gcd, ..) => Some(gcd),
            Self::Packed(gcd, ..) => Some(gcd),
        }
    }
}

/// What the transport can hand to the layer, already decoded.
#[derive(Debug)]
pub enum RecvMsg {
    /// A peer connects to a group with a credential.
    Connect(PeerAddr, LayerConnect),
    /// A peer's transport link went away.
    Leave(PeerAddr),
    /// A pushed layer event.
    Event(PeerAddr, LayerEvent),
}

/// One batch entry the layer answers: either one event for a set of
/// recipients (serialised once on the wire), or a connect reply.
#[derive(Debug)]
pub enum Outbound {
    /// Send the event to every listed `(peer id, peer address)` recipient.
    Event(Vec<(GroupId, PeerAddr)>, LayerEvent),
    /// Reply to a connect attempt: recipient id, address, success flag and
    /// the payload of a successful connect.
    Result(GroupId, PeerAddr, bool, Option<LayerResult>),
}

} // verus!
