//! The durable state: managers, groups, members, join requests, messages
//! and the per-group consensus log.
//!
//! The tables live in memory as append-only rows with soft deletion; the
//! row id of every table is its position plus one, which is exactly the
//! auto-increment key of the relational schema the transport adapter may
//! mirror them into.  All upserts are idempotent, and the consensus log of
//! every group stays contiguous: heights `1..=height` with no gaps and no
//! duplicates.

use vstd::prelude::*;
use vstd::pervasive::VecAdditionalExecFns;

use crate::events::GroupType;
use crate::ids::{GroupId, PeerAddr};
use crate::ServerError;
use crate::DEFAULT_REMAIN;

verus! {

/// An identity authorised to create group chats.
pub struct Manager {
    /// Row id; assigned on insert.
    pub id: i64,
    /// The manager's identity; unique across the table.
    pub gid: GroupId,
    /// How many more groups this manager may create.
    pub times: i32,
    /// Whether the manager is suspended.
    pub is_closed: bool,
    /// Creation or last-update time, in seconds.
    pub datetime: i64,
    /// Soft-deletion flag.
    pub is_deleted: bool,
}

/// Mathematical shape of a manager row.
#[verifier::ext_equal]
pub struct ManagerV {
    pub id: i64,
    pub gid: Seq<u8>,
    pub times: i32,
    pub is_closed: bool,
    pub datetime: i64,
    pub is_deleted: bool,
}

impl View for Manager {
    type V = ManagerV;

    open spec fn view(&self) -> ManagerV {
        ManagerV {
            id: self.id,
            gid: self.gid@,
            times: self.times,
            is_closed: self.is_closed,
            datetime: self.datetime,
            is_deleted: self.is_deleted,
        }
    }
}

/// A group chat.
pub struct GroupChat {
    /// Row id; assigned on insert.
    pub id: i64,
    /// The creating identity.
    pub owner: GroupId,
    /// Height of the group's consensus log.
    pub height: i64,
    /// The group's identity; unique across the table.
    pub g_id: GroupId,
    /// The kind of group.
    pub g_type: GroupType,
    /// Group name.
    pub g_name: String,
    /// Group introduction.
    pub g_bio: String,
    /// Whether invitations need a manager's agreement.
    pub is_need_agree: bool,
    /// Hash of the encryption key, for encrypted groups.
    pub key_hash: Vec<u8>,
    /// Whether the group is closed.
    pub is_closed: bool,
    /// Creation time, in seconds.
    pub datetime: i64,
    /// Soft-deletion flag; groups are closed, never deleted.
    pub is_deleted: bool,
}

/// Mathematical shape of a group row.
#[verifier::ext_equal]
pub struct GroupChatV {
    pub id: i64,
    pub owner: Seq<u8>,
    pub height: i64,
    pub g_id: Seq<u8>,
    pub g_type: GroupType,
    pub g_name: Seq<char>,
    pub g_bio: Seq<char>,
    pub is_need_agree: bool,
    pub key_hash: Seq<u8>,
    pub is_closed: bool,
    pub datetime: i64,
    pub is_deleted: bool,
}

impl View for GroupChat {
    type V = GroupChatV;

    open spec fn view(&self) -> GroupChatV {
        GroupChatV {
            id: self.id,
            owner: self.owner@,
            height: self.height,
            g_id: self.g_id@,
            g_type: self.g_type,
            g_name: self.g_name@,
            g_bio: self.g_bio@,
            is_need_agree: self.is_need_agree,
            key_hash: self.key_hash@,
            is_closed: self.is_closed,
            datetime: self.datetime,
            is_deleted: self.is_deleted,
        }
    }
}

/// Membership of an identity in one group.
pub struct Member {
    /// Row id; assigned on insert.
    pub id: i64,
    /// Row id of the group.
    pub fid: i64,
    /// The member's identity; unique per group.
    pub m_id: GroupId,
    /// The member's last known address.
    pub m_addr: PeerAddr,
    /// The member's name.
    pub m_name: String,
    /// Whether the member manages the group.
    pub is_manager: bool,
    /// Join or last-update time, in seconds.
    pub datetime: i64,
    /// Soft-deletion flag; cleared when the member rejoins.
    pub is_deleted: bool,
}

/// Mathematical shape of a member row.
#[verifier::ext_equal]
pub struct MemberV {
    pub id: i64,
    pub fid: i64,
    pub m_id: Seq<u8>,
    pub m_addr: Seq<u8>,
    pub m_name: Seq<char>,
    pub is_manager: bool,
    pub datetime: i64,
    pub is_deleted: bool,
}

impl View for Member {
    type V = MemberV;

    open spec fn view(&self) -> MemberV {
        MemberV {
            id: self.id,
            fid: self.fid,
            m_id: self.m_id@,
            m_addr: self.m_addr@,
            m_name: self.m_name@,
            is_manager: self.is_manager,
            datetime: self.datetime,
            is_deleted: self.is_deleted,
        }
    }
}

/// A pending join request awaiting a manager's decision.
pub struct Request {
    /// Row id; assigned on insert.
    pub id: i64,
    /// Row id of the group.
    pub fid: i64,
    /// The joiner's identity.
    pub m_id: GroupId,
    /// The joiner's address.
    pub m_addr: PeerAddr,
    /// The joiner's name.
    pub m_name: String,
    /// Request time, in seconds.
    pub datetime: i64,
}

/// Mathematical shape of a request row.
#[verifier::ext_equal]
pub struct RequestV {
    pub id: i64,
    pub fid: i64,
    pub m_id: Seq<u8>,
    pub m_addr: Seq<u8>,
    pub m_name: Seq<char>,
    pub datetime: i64,
}

impl View for Request {
    type V = RequestV;

    open spec fn view(&self) -> RequestV {
        RequestV {
            id: self.id,
            fid: self.fid,
            m_id: self.m_id@,
            m_addr: self.m_addr@,
            m_name: self.m_name@,
            datetime: self.datetime,
        }
    }
}

/// The kind of a persisted message, with its stable ordinal.
#[derive(Clone, Copy, Debug, PartialEq, Eq, Structural)]
pub enum MessageType {
    String,
    Image,
    File,
    Contact,
    Emoji,
    Record,
    Phone,
    Video,
    Invite,
}

impl MessageType {
    /// Stable ordinal of the message kind.
    pub fn to_i16(&self) -> (r: i16)
        ensures
            r == (match self {
                MessageType::String => 0i16,
                MessageType::Image => 1i16,
                MessageType::File => 2i16,
                MessageType::Contact => 3i16,
                MessageType::Emoji => 4i16,
                MessageType::Record => 5i16,
                MessageType::Phone => 6i16,
                MessageType::Video => 7i16,
                MessageType::Invite => 8i16,
            }),
    {
        match self {
            MessageType::String => 0,
            MessageType::Image => 1,
            MessageType::File => 2,
            MessageType::Contact => 3,
            MessageType::Emoji => 4,
            MessageType::Record => 5,
            MessageType::Phone => 6,
            MessageType::Video => 7,
            MessageType::Invite => 8,
        }
    }

    /// Reads an ordinal back; unknown ordinals fall back to `String`.
    pub fn from_i16(i: i16) -> (r: Self)
        ensures
            r == (if i == 1 {
                MessageType::Image
            } else if i == 2 {
                MessageType::File
            } else if i == 3 {
                MessageType::Contact
            } else if i == 4 {
                MessageType::Emoji
            } else if i == 5 {
                MessageType::Record
            } else if i == 6 {
                MessageType::Phone
            } else if i == 7 {
                MessageType::Video
            } else if i == 8 {
                MessageType::Invite
            } else {
                MessageType::String
            }),
    {
        match i {
            1 => MessageType::Image,
            2 => MessageType::File,
            3 => MessageType::Contact,
            4 => MessageType::Emoji,
            5 => MessageType::Record,
            6 => MessageType::Phone,
            7 => MessageType::Video,
            8 => MessageType::Invite,
            _ => MessageType::String,
        }
    }
}

/// One persisted message.
pub struct Message {
    /// Row id; assigned on insert.
    pub id: i64,
    /// Row id of the group.
    pub fid: i64,
    /// Row id of the sending member.
    pub mid: i64,
    /// The message kind.
    pub m_type: MessageType,
    /// The content: the text itself, or the logical blob name.
    pub m_content: String,
    /// Message time, in seconds.
    pub datetime: i64,
}

/// Mathematical shape of a message row.
#[verifier::ext_equal]
pub struct MessageRowV {
    pub id: i64,
    pub fid: i64,
    pub mid: i64,
    pub m_type: MessageType,
    pub m_content: Seq<char>,
    pub datetime: i64,
}

impl View for Message {
    type V = MessageRowV;

    open spec fn view(&self) -> MessageRowV {
        MessageRowV {
            id: self.id,
            fid: self.fid,
            mid: self.mid,
            m_type: self.m_type,
            m_content: self.m_content@,
            datetime: self.datetime,
        }
    }
}

/// The kind of a consensus log entry, with its stable ordinal.
#[derive(Clone, Copy, Debug, PartialEq, Eq, Structural)]
pub enum ConsensusType {
    GroupInfo,
    GroupTransfer,
    GroupManagerAdd,
    GroupManagerDel,
    GroupClose,
    MemberInfo,
    MemberJoin,
    MemberLeave,
    MessageCreate,
    Unknown,
}

impl ConsensusType {
    /// Stable ordinal of the log entry kind.
    pub fn to_i16(&self) -> (r: i16)
        ensures
            r == (match self {
                ConsensusType::Unknown => 0i16,
                ConsensusType::GroupInfo => 1i16,
                ConsensusType::GroupTransfer => 2i16,
                ConsensusType::GroupManagerAdd => 3i16,
                ConsensusType::GroupManagerDel => 4i16,
                ConsensusType::GroupClose => 5i16,
                ConsensusType::MemberInfo => 6i16,
                ConsensusType::MemberJoin => 7i16,
                ConsensusType::MemberLeave => 8i16,
                ConsensusType::MessageCreate => 9i16,
            }),
    {
        match self {
            ConsensusType::Unknown => 0,
            ConsensusType::GroupInfo => 1,
            ConsensusType::GroupTransfer => 2,
            ConsensusType::GroupManagerAdd => 3,
            ConsensusType::GroupManagerDel => 4,
            ConsensusType::GroupClose => 5,
            ConsensusType::MemberInfo => 6,
            ConsensusType::MemberJoin => 7,
            ConsensusType::MemberLeave => 8,
            ConsensusType::MessageCreate => 9,
        }
    }

    /// Reads an ordinal back; unknown ordinals are remembered as such.
    pub fn from_i16(a: i16) -> (r: Self)
        ensures
            r == (if a == 1 {
                ConsensusType::GroupInfo
            } else if a == 2 {
                ConsensusType::GroupTransfer
            } else if a == 3 {
                ConsensusType::GroupManagerAdd
            } else if a == 4 {
                ConsensusType::GroupManagerDel
            } else if a == 5 {
                ConsensusType::GroupClose
            } else if a == 6 {
                ConsensusType::MemberInfo
            } else if a == 7 {
                ConsensusType::MemberJoin
            } else if a == 8 {
                ConsensusType::MemberLeave
            } else if a == 9 {
                ConsensusType::MessageCreate
            } else {
                ConsensusType::Unknown
            }),
    {
        match a {
            1 => ConsensusType::GroupInfo,
            2 => ConsensusType::GroupTransfer,
            3 => ConsensusType::GroupManagerAdd,
            4 => ConsensusType::GroupManagerDel,
            5 => ConsensusType::GroupClose,
            6 => ConsensusType::MemberInfo,
            7 => ConsensusType::MemberJoin,
            8 => ConsensusType::MemberLeave,
            9 => ConsensusType::MessageCreate,
            _ => ConsensusType::Unknown,
        }
    }
}

/// One consensus log entry.  The entry is all plain data, so it is its own
/// mathematical shape.
#[derive(Clone, Copy, Debug, PartialEq, Eq, Structural)]
pub struct Consensus {
    /// Row id; assigned on insert.
    pub id: i64,
    /// Row id of the group.
    pub fid: i64,
    /// The entry's height; the pairs `(fid, height)` are unique.
    pub height: i64,
    /// The kind of entry.
    pub ctype: ConsensusType,
    /// Row id of the member or message the entry points to; zero for
    /// group-level entries.
    pub cid: i64,
}

/// The durable tables.
pub struct Db {
    pub managers: Vec<Manager>,
    pub groups: Vec<GroupChat>,
    pub members: Vec<Member>,
    pub requests: Vec<Request>,
    pub messages: Vec<Message>,
    pub consensus: Vec<Consensus>,
}

/// Mathematical shape of the tables.
#[verifier::ext_equal]
pub struct DbV {
    pub managers: Seq<ManagerV>,
    pub groups: Seq<GroupChatV>,
    pub members: Seq<MemberV>,
    pub requests: Seq<RequestV>,
    pub messages: Seq<MessageRowV>,
    pub consensus: Seq<Consensus>,
}

impl View for Db {
    type V = DbV;

    open spec fn view(&self) -> DbV {
        DbV {
            managers: self.managers@.map_values(|m: Manager| m@),
            groups: self.groups@.map_values(|g: GroupChat| g@),
            members: self.members@.map_values(|m: Member| m@),
            requests: self.requests@.map_values(|r: Request| r@),
            messages: self.messages@.map_values(|m: Message| m@),
            consensus: self.consensus@,
        }
    }
}

impl Db {
    /// An empty store.
    pub fn new() -> (r: Db)
        ensures
            wf_db(r@),
            r@.managers.len() == 0 && r@.groups.len() == 0 && r@.members.len() == 0
                && r@.requests.len() == 0 && r@.messages.len() == 0 && r@.consensus.len() == 0,
    {
        let db = Db {
            managers: Vec::new(),
            groups: Vec::new(),
            members: Vec::new(),
            requests: Vec::new(),
            messages: Vec::new(),
            consensus: Vec::new(),
        };
        proof {
            assert(db@.managers =~= Seq::<ManagerV>::empty());
            assert(db@.groups =~= Seq::<GroupChatV>::empty());
            assert(db@.members =~= Seq::<MemberV>::empty());
            assert(db@.requests =~= Seq::<RequestV>::empty());
            assert(db@.messages =~= Seq::<MessageRowV>::empty());
        }
        db
    }
}

/// One creation spent: a decrement held at the numeric floor.
pub open spec fn spend_one(t: i32) -> i32 {
    if t > i32::MIN {
        (t - 1) as i32
    } else {
        t
    }
}

/// Index of the first manager row for an identity, deleted or not — the
/// key the upsert matches on; `-1` when there is none.
pub open spec fn manager_index(ms: Seq<ManagerV>, gid: Seq<u8>) -> int
    decreases ms.len(),
{
    if ms.len() == 0 {
        -1
    } else if ms[0].gid == gid {
        0
    } else {
        let r = manager_index(ms.skip(1), gid);
        if r < 0 {
            -1
        } else {
            r + 1
        }
    }
}

/// Index of the first group row for a group id; `-1` when there is none.
pub open spec fn group_index(gs: Seq<GroupChatV>, g_id: Seq<u8>) -> int
    decreases gs.len(),
{
    if gs.len() == 0 {
        -1
    } else if gs[0].g_id == g_id {
        0
    } else {
        let r = group_index(gs.skip(1), g_id);
        if r < 0 {
            -1
        } else {
            r + 1
        }
    }
}

/// Index of the first member row for `(fid, m_id)`, deleted or not — the
/// key the upsert matches on; `-1` when there is none.
pub open spec fn member_index(ms: Seq<MemberV>, fid: i64, m_id: Seq<u8>) -> int
    decreases ms.len(),
{
    if ms.len() == 0 {
        -1
    } else if ms[0].fid == fid && ms[0].m_id == m_id {
        0
    } else {
        let r = member_index(ms.skip(1), fid, m_id);
        if r < 0 {
            -1
        } else {
            r + 1
        }
    }
}

/// Index of the first consensus row for `(fid, height)`; `-1` when there
/// is none.
pub open spec fn consensus_index(cs: Seq<Consensus>, fid: i64, height: i64) -> int
    decreases cs.len(),
{
    if cs.len() == 0 {
        -1
    } else if cs[0].fid == fid && cs[0].height == height {
        0
    } else {
        let r = consensus_index(cs.skip(1), fid, height);
        if r < 0 {
            -1
        } else {
            r + 1
        }
    }
}

/// How many consensus rows a group has.
pub open spec fn count_fid(cs: Seq<Consensus>, fid: i64) -> int
    decreases cs.len(),
{
    if cs.len() == 0 {
        0
    } else {
        count_fid(cs.drop_last(), fid) + if cs.last().fid == fid {
            1int
        } else {
            0int
        }
    }
}

/// Whether a log entry's pointer names a valid row of the table it points
/// into.
pub open spec fn cid_ok(ctype: ConsensusType, cid: i64, members: int, messages: int) -> bool {
    match ctype {
        ConsensusType::MemberInfo => 1 <= cid <= members,
        ConsensusType::MemberJoin => 1 <= cid <= members,
        ConsensusType::MemberLeave => 1 <= cid <= members,
        ConsensusType::MessageCreate => 1 <= cid <= messages,
        _ => true,
    }
}

/// Well-formedness of the durable tables.
///
/// Row ids are positions plus one; manager and group identities are
/// unique; one member row per `(fid, m_id)`; member, request, message and
/// log rows point at existing rows; and for every group the log heights
/// are exactly `1..=height`, unique and complete, with as many rows as the
/// height.
pub open spec fn wf_db(d: DbV) -> bool {
    &&& forall|i: int| 0 <= i < d.managers.len() ==> (#[trigger] d.managers[i]).id == i + 1
    &&& forall|i: int| 0 <= i < d.groups.len() ==> (#[trigger] d.groups[i]).id == i + 1
    &&& forall|i: int| 0 <= i < d.members.len() ==> (#[trigger] d.members[i]).id == i + 1
    &&& forall|i: int| 0 <= i < d.requests.len() ==> (#[trigger] d.requests[i]).id == i + 1
    &&& forall|i: int| 0 <= i < d.messages.len() ==> (#[trigger] d.messages[i]).id == i + 1
    &&& forall|i: int| 0 <= i < d.consensus.len() ==> (#[trigger] d.consensus[i]).id == i + 1
    &&& forall|i: int, j: int|
        0 <= i < j < d.managers.len() ==> (#[trigger] d.managers[i]).gid != (
        #[trigger] d.managers[j]).gid
    &&& forall|i: int, j: int|
        0 <= i < j < d.groups.len() ==> (#[trigger] d.groups[i]).g_id != (
        #[trigger] d.groups[j]).g_id
    &&& forall|i: int, j: int|
        0 <= i < j < d.members.len() ==> !((#[trigger] d.members[i]).fid == (
        #[trigger] d.members[j]).fid && d.members[i].m_id == d.members[j].m_id)
    &&& forall|i: int, j: int|
        0 <= i < j < d.consensus.len() ==> !((#[trigger] d.consensus[i]).fid == (
        #[trigger] d.consensus[j]).fid && d.consensus[i].height == d.consensus[j].height)
    &&& forall|i: int|
        0 <= i < d.members.len() ==> 1 <= (#[trigger] d.members[i]).fid <= d.groups.len()
    &&& forall|i: int|
        0 <= i < d.requests.len() ==> 1 <= (#[trigger] d.requests[i]).fid <= d.groups.len()
    &&& forall|i: int|
        0 <= i < d.messages.len() ==> 1 <= (#[trigger] d.messages[i]).mid <= d.members.len()
    &&& forall|i: int| 0 <= i < d.groups.len() ==> (#[trigger] d.groups[i]).height >= 0
    &&& forall|i: int|
        0 <= i < d.consensus.len() ==> {
            let c = #[trigger] d.consensus[i];
            &&& 1 <= c.fid <= d.groups.len()
            &&& 1 <= c.height <= d.groups[c.fid - 1].height
            &&& cid_ok(c.ctype, c.cid, d.members.len() as int, d.messages.len() as int)
        }
    &&& forall|k: int, h: i64|
        0 <= k < d.groups.len() && 1 <= h <= d.groups[k].height ==> #[trigger] consensus_index(
            d.consensus,
            (k + 1) as i64,
            h,
        ) >= 0
    &&& forall|k: int|
        0 <= k < d.groups.len() ==> count_fid(d.consensus, (k + 1) as i64) == (
        #[trigger] d.groups[k]).height
}

/// A first-match index that is found is in range and is a match; one that
/// is not found means no row matches.
pub proof fn lemma_manager_index(ms: Seq<ManagerV>, gid: Seq<u8>)
    ensures
        manager_index(ms, gid) >= 0 ==> manager_index(ms, gid) < ms.len() && ms[manager_index(
            ms,
            gid,
        )].gid == gid,
        manager_index(ms, gid) < 0 ==> forall|i: int|
            0 <= i < ms.len() ==> (#[trigger] ms[i]).gid != gid,
    decreases ms.len(),
{
    if ms.len() > 0 && ms[0].gid != gid {
        lemma_manager_index(ms.skip(1), gid);
        if manager_index(ms.skip(1), gid) < 0 {
            assert forall|i: int| 0 <= i < ms.len() implies (#[trigger] ms[i]).gid != gid by {
                if i > 0 {
                    assert(ms.skip(1)[i - 1] == ms[i]);
                }
            }
        } else {
            assert(ms.skip(1)[manager_index(ms.skip(1), gid)] == ms[manager_index(ms, gid)]);
        }
    }
}

/// When a forward scan stops at the first matching manager row, that
/// position is the first-match index.
pub proof fn lemma_manager_index_prefix(ms: Seq<ManagerV>, gid: Seq<u8>, i: int)
    requires
        0 <= i < ms.len(),
        ms[i].gid == gid,
        forall|j: int| 0 <= j < i ==> (#[trigger] ms[j]).gid != gid,
    ensures
        manager_index(ms, gid) == i,
    decreases ms.len(),
{
    if i > 0 {
        assert forall|j: int| 0 <= j < i - 1 implies (#[trigger] ms.skip(1)[j]).gid != gid by {
            assert(ms.skip(1)[j] == ms[j + 1]);
        }
        assert(ms.skip(1)[i - 1] == ms[i]);
        lemma_manager_index_prefix(ms.skip(1), gid, i - 1);
    }
}

/// As `lemma_manager_index`, for group rows.
pub proof fn lemma_group_index(gs: Seq<GroupChatV>, g_id: Seq<u8>)
    ensures
        group_index(gs, g_id) >= 0 ==> group_index(gs, g_id) < gs.len() && gs[group_index(
            gs,
            g_id,
        )].g_id == g_id,
        group_index(gs, g_id) < 0 ==> forall|i: int|
            0 <= i < gs.len() ==> (#[trigger] gs[i]).g_id != g_id,
    decreases gs.len(),
{
    if gs.len() > 0 && gs[0].g_id != g_id {
        lemma_group_index(gs.skip(1), g_id);
        if group_index(gs.skip(1), g_id) < 0 {
            assert forall|i: int| 0 <= i < gs.len() implies (#[trigger] gs[i]).g_id != g_id by {
                if i > 0 {
                    assert(gs.skip(1)[i - 1] == gs[i]);
                }
            }
        } else {
            assert(gs.skip(1)[group_index(gs.skip(1), g_id)] == gs[group_index(gs, g_id)]);
        }
    }
}

/// As `lemma_manager_index_prefix`, for group rows.
pub proof fn lemma_group_index_prefix(gs: Seq<GroupChatV>, g_id: Seq<u8>, i: int)
    requires
        0 <= i < gs.len(),
        gs[i].g_id == g_id,
        forall|j: int| 0 <= j < i ==> (#[trigger] gs[j]).g_id != g_id,
    ensures
        group_index(gs, g_id) == i,
    decreases gs.len(),
{
    if i > 0 {
        assert forall|j: int| 0 <= j < i - 1 implies (#[trigger] gs.skip(1)[j]).g_id != g_id by {
            assert(gs.skip(1)[j] == gs[j + 1]);
        }
        assert(gs.skip(1)[i - 1] == gs[i]);
        lemma_group_index_prefix(gs.skip(1), g_id, i - 1);
    }
}

/// As `lemma_manager_index`, for member rows.
pub proof fn lemma_member_index(ms: Seq<MemberV>, fid: i64, m_id: Seq<u8>)
    ensures
        member_index(ms, fid, m_id) >= 0 ==> member_index(ms, fid, m_id) < ms.len() && ms[
            member_index(ms, fid, m_id)].fid == fid && ms[member_index(ms, fid, m_id)].m_id == m_id,
        member_index(ms, fid, m_id) < 0 ==> forall|i: int|
            0 <= i < ms.len() ==> !((#[trigger] ms[i]).fid == fid && ms[i].m_id == m_id),
    decreases ms.len(),
{
    if ms.len() > 0 && !(ms[0].fid == fid && ms[0].m_id == m_id) {
        lemma_member_index(ms.skip(1), fid, m_id);
        if member_index(ms.skip(1), fid, m_id) < 0 {
            assert forall|i: int| 0 <= i < ms.len() implies !((#[trigger] ms[i]).fid == fid
                && ms[i].m_id == m_id) by {
                if i > 0 {
                    assert(ms.skip(1)[i - 1] == ms[i]);
                }
            }
        } else {
            assert(ms.skip(1)[member_index(ms.skip(1), fid, m_id)] == ms[member_index(
                ms,
                fid,
                m_id,
            )]);
        }
    }
}

/// As `lemma_manager_index_prefix`, for member rows.
pub proof fn lemma_member_index_prefix(ms: Seq<MemberV>, fid: i64, m_id: Seq<u8>, i: int)
    requires
        0 <= i < ms.len(),
        ms[i].fid == fid && ms[i].m_id == m_id,
        forall|j: int| 0 <= j < i ==> !((#[trigger] ms[j]).fid == fid && ms[j].m_id == m_id),
    ensures
        member_index(ms, fid, m_id) == i,
    decreases ms.len(),
{
    if i > 0 {
        assert forall|j: int| 0 <= j < i - 1 implies !((#[trigger] ms.skip(1)[j]).fid == fid
            && ms.skip(1)[j].m_id == m_id) by {
            assert(ms.skip(1)[j] == ms[j + 1]);
        }
        assert(ms.skip(1)[i - 1] == ms[i]);
        lemma_member_index_prefix(ms.skip(1), fid, m_id, i - 1);
    }
}

/// As `lemma_manager_index`, for consensus rows.
pub proof fn lemma_consensus_index(cs: Seq<Consensus>, fid: i64, height: i64)
    ensures
        consensus_index(cs, fid, height) >= 0 ==> consensus_index(cs, fid, height) < cs.len() && cs[
            consensus_index(cs, fid, height)].fid == fid && cs[consensus_index(
            cs,
            fid,
            height,
        )].height == height,
        consensus_index(cs, fid, height) < 0 ==> forall|i: int|
            0 <= i < cs.len() ==> !((#[trigger] cs[i]).fid == fid && cs[i].height == height),
    decreases cs.len(),
{
    if cs.len() > 0 && !(cs[0].fid == fid && cs[0].height == height) {
        lemma_consensus_index(cs.skip(1), fid, height);
        if consensus_index(cs.skip(1), fid, height) < 0 {
            assert forall|i: int| 0 <= i < cs.len() implies !((#[trigger] cs[i]).fid == fid
                && cs[i].height == height) by {
                if i > 0 {
                    assert(cs.skip(1)[i - 1] == cs[i]);
                }
            }
        } else {
            assert(cs.skip(1)[consensus_index(cs.skip(1), fid, height)] == cs[consensus_index(
                cs,
                fid,
                height,
            )]);
        }
    }
}

/// As `lemma_manager_index_prefix`, for consensus rows.
pub proof fn lemma_consensus_index_prefix(cs: Seq<Consensus>, fid: i64, height: i64, i: int)
    requires
        0 <= i < cs.len(),
        cs[i].fid == fid && cs[i].height == height,
        forall|j: int| 0 <= j < i ==> !((#[trigger] cs[j]).fid == fid && cs[j].height == height),
    ensures
        consensus_index(cs, fid, height) == i,
    decreases cs.len(),
{
    if i > 0 {
        assert forall|j: int| 0 <= j < i - 1 implies !((#[trigger] cs.skip(1)[j]).fid == fid
            && cs.skip(1)[j].height == height) by {
            assert(cs.skip(1)[j] == cs[j + 1]);
        }
        assert(cs.skip(1)[i - 1] == cs[i]);
        lemma_consensus_index_prefix(cs.skip(1), fid, height, i - 1);
    }
}

/// Appending a row adds one to its group's count and nothing to others.
pub proof fn lemma_count_fid_push(cs: Seq<Consensus>, c: Consensus, fid: i64)
    ensures
        count_fid(cs.push(c), fid) == count_fid(cs, fid) + if c.fid == fid {
            1int
        } else {
            0int
        },
{
    assert(cs.push(c).drop_last() =~= cs);
    assert(cs.push(c).last() == c);
}

/// Updating a row without changing its group changes no count.
pub proof fn lemma_count_fid_update(cs: Seq<Consensus>, i: int, c: Consensus, fid: i64)
    requires
        0 <= i < cs.len(),
        cs[i].fid == c.fid,
    ensures
        count_fid(cs.update(i, c), fid) == count_fid(cs, fid),
    decreases cs.len(),
{
    if i == cs.len() - 1 {
        assert(cs.update(i, c).drop_last() =~= cs.drop_last());
        assert(cs.update(i, c).last() == c);
    } else {
        assert(cs.update(i, c).drop_last() =~= cs.drop_last().update(i, c));
        assert(cs.update(i, c).last() == cs.last());
        lemma_count_fid_update(cs.drop_last(), i, c, fid);
    }
}

/// A group's row count never exceeds the log's total length.
pub proof fn lemma_count_fid_le_len(cs: Seq<Consensus>, fid: i64)
    ensures
        0 <= count_fid(cs, fid) <= cs.len(),
    decreases cs.len(),
{
    if cs.len() > 0 {
        lemma_count_fid_le_len(cs.drop_last(), fid);
    }
}

/// A group no row belongs to has count zero.
pub proof fn lemma_count_fid_absent(cs: Seq<Consensus>, fid: i64)
    requires
        forall|i: int| 0 <= i < cs.len() ==> (#[trigger] cs[i]).fid != fid,
    ensures
        count_fid(cs, fid) == 0,
    decreases cs.len(),
{
    if cs.len() > 0 {
        assert(cs.last() == cs[cs.len() - 1]);
        lemma_count_fid_absent(cs.drop_last(), fid);
    }
}

/// A first match stays where it is when a row is appended behind it.
pub proof fn lemma_consensus_index_push(cs: Seq<Consensus>, c: Consensus, fid: i64, height: i64)
    requires
        consensus_index(cs, fid, height) >= 0,
    ensures
        consensus_index(cs.push(c), fid, height) == consensus_index(cs, fid, height),
    decreases cs.len(),
{
    if cs.len() > 0 {
        if cs[0].fid == fid && cs[0].height == height {
            assert(cs.push(c)[0] == cs[0]);
        } else {
            assert(cs.push(c).skip(1) =~= cs.skip(1).push(c));
            lemma_consensus_index_push(cs.skip(1), c, fid, height);
        }
    }
}

impl Manager {
    /// A fresh manager row for an identity, not yet inserted.
    pub fn new(gid: GroupId, datetime: i64) -> (r: Manager)
        ensures
            r@ == (ManagerV {
                id: 0,
                gid: gid@,
                times: DEFAULT_REMAIN,
                is_closed: false,
                datetime,
                is_deleted: false,
            }),
    {
        Manager { id: 0, gid, times: DEFAULT_REMAIN, is_closed: false, datetime, is_deleted: false }
    }

    /// The live manager row of an identity.
    #[verifier::loop_isolation(false)]
    pub fn get<'a>(db: &'a Db, gid: &GroupId) -> (r: Result<&'a Manager, ServerError>)
        ensures
            ({
                let i = manager_index(db@.managers, gid@);
                match r {
                    Ok(m) => i >= 0 && !db@.managers[i].is_deleted && m@ == db@.managers[i],
                    Err(e) => (i < 0 || db@.managers[i].is_deleted) && e == ServerError::NotFound,
                }
            }),
    {
        let n: usize = db.managers.len();
        let mut i: usize = 0;
        while i < n
            invariant
                i <= n,
                n == db@.managers.len(),
                forall|j: int| 0 <= j < i ==> (#[trigger] db@.managers[j]).gid != gid@,
            decreases n - i,
        {
            if db.managers[i].gid.eq_id(gid) {
                proof {
                    lemma_manager_index_prefix(db@.managers, gid@, i as int);
                }
                if db.managers[i].is_deleted {
                    return Err(ServerError::NotFound);
                }
                return Ok(&db.managers[i]);
            }
            i += 1;
        }
        proof {
            lemma_manager_index(db@.managers, gid@);
        }
        Err(ServerError::NotFound)
    }

    /// Upserts this row by identity: an existing row for the same identity
    /// keeps its id and creation count but takes the suspension flag and
    /// time and comes back from soft deletion; otherwise the row is
    /// appended.  Either way `self.id` afterwards names the stored row.
    #[verifier::loop_isolation(false)]
    pub fn insert(&mut self, db: &mut Db) -> (r: ())
        requires
            wf_db(old(db)@),
            old(db)@.managers.len() < i64::MAX,
        ensures
            wf_db(final(db)@),
            final(db)@ == (DbV { managers: final(db)@.managers, ..old(db)@ }),
            ({
                let i = manager_index(old(db)@.managers, old(self)@.gid);
                if i >= 0 {
                    &&& final(db)@.managers == old(db)@.managers.update(
                        i,
                        ManagerV {
                            is_closed: old(self)@.is_closed,
                            datetime: old(self)@.datetime,
                            is_deleted: false,
                            ..old(db)@.managers[i]
                        },
                    )
                    &&& final(self)@ == (ManagerV { id: old(db)@.managers[i].id, ..old(self)@ })
                } else {
                    &&& final(db)@.managers == old(db)@.managers.push(
                        ManagerV { id: (old(db)@.managers.len() + 1) as i64, ..old(self)@ },
                    )
                    &&& final(self)@ == (ManagerV {
                        id: (old(db)@.managers.len() + 1) as i64,
                        ..old(self)@
                    })
                }
            }),
    {
        let n: usize = db.managers.len();
        let mut i: usize = 0;
        while i < n
            invariant
                i <= n,
                n == db@.managers.len(),
                *db == *old(db),
                *self == *old(self),
                forall|j: int| 0 <= j < i ==> (#[trigger] db@.managers[j]).gid != self@.gid,
            decreases n - i,
        {
            if db.managers[i].gid.eq_id(&self.gid) {
                proof {
                    lemma_manager_index_prefix(db@.managers, self@.gid, i as int);
                }
                self.id = db.managers[i].id;
                let row = Manager {
                    id: db.managers[i].id,
                    gid: db.managers[i].gid.duplicate(),
                    times: db.managers[i].times,
                    is_closed: self.is_closed,
                    datetime: self.datetime,
                    is_deleted: false,
                };
                db.managers.set(i, row);
                proof {
                    let iv = i as int;
                    let x = ManagerV {
                        is_closed: old(self)@.is_closed,
                        datetime: old(self)@.datetime,
                        is_deleted: false,
                        ..old(db)@.managers[iv]
                    };
                    assert(db@.managers =~= old(db)@.managers.update(iv, x));
                    assert(db@.groups =~= old(db)@.groups);
                    assert(db@.members =~= old(db)@.members);
                    assert(db@.requests =~= old(db)@.requests);
                    assert(db@.messages =~= old(db)@.messages);
                    assert(db@ =~= (DbV { managers: old(db)@.managers.update(iv, x), ..old(db)@ }));
                    lemma_wf_manager_update(old(db)@, iv, x);
                }
                return ;
            }
            i += 1;
        }
        proof {
            lemma_manager_index(db@.managers, self@.gid);
        }
        let id: i64 = i64_of_len(n);
        self.id = id;
        let row = Manager {
            id,
            gid: self.gid.duplicate(),
            times: self.times,
            is_closed: self.is_closed,
            datetime: self.datetime,
            is_deleted: self.is_deleted,
        };
        db.managers.push(row);
        proof {
            let x = ManagerV { id: (old(db)@.managers.len() + 1) as i64, ..old(self)@ };
            assert(db@.managers =~= old(db)@.managers.push(x));
            assert(db@.groups =~= old(db)@.groups);
            assert(db@.members =~= old(db)@.members);
            assert(db@.requests =~= old(db)@.requests);
            assert(db@.messages =~= old(db)@.messages);
            assert(db@ =~= (DbV { managers: old(db)@.managers.push(x), ..old(db)@ }));
            lemma_wf_manager_push(old(db)@, x);
        }
    }

    /// Spends one creation: the stored row's count drops by one, held at
    /// the numeric floor.
    pub fn reduce(&self, db: &mut Db) -> (r: ())
        requires
            wf_db(old(db)@),
            1 <= self@.id <= old(db)@.managers.len(),
        ensures
            wf_db(final(db)@),
            final(db)@ == (DbV { managers: final(db)@.managers, ..old(db)@ }),
            final(db)@.managers == old(db)@.managers.update(
                self@.id - 1,
                ManagerV {
                    times: spend_one(old(db)@.managers[self@.id - 1].times),
                    ..old(db)@.managers[self@.id - 1]
                },
            ),
    {
        proof {
            assert(db@.managers.len() == db.managers@.len());
            assert(0 <= self@.id - 1 < db.managers@.len());
            assert(db@.managers[self@.id - 1] == db.managers@[self@.id - 1]@);
        }
        let n: usize = db.managers.len();
        let idx: usize = (self.id - 1) as usize;
        let t: i32 = db.managers[idx].times;
        let row = Manager {
            id: db.managers[idx].id,
            gid: db.managers[idx].gid.duplicate(),
            times: if t > i32::MIN {
                t - 1
            } else {
                t
            },
            is_closed: db.managers[idx].is_closed,
            datetime: db.managers[idx].datetime,
            is_deleted: db.managers[idx].is_deleted,
        };
        db.managers.set(idx, row);
        proof {
            let x = ManagerV {
                times: spend_one(old(db)@.managers[self@.id - 1].times),
                ..old(db)@.managers[self@.id - 1]
            };
            assert(db@.managers =~= old(db)@.managers.update(self@.id - 1, x));
            assert(db@.groups =~= old(db)@.groups);
            assert(db@.members =~= old(db)@.members);
            assert(db@.requests =~= old(db)@.requests);
            assert(db@.messages =~= old(db)@.messages);
            assert(db@ =~= (DbV {
                managers: old(db)@.managers.update(self@.id - 1, x),
                ..old(db)@
            }));
            lemma_wf_manager_update(old(db)@, self@.id - 1, x);
        }
    }

    /// The live manager rows, in id order.
    #[verifier::loop_isolation(false)]
    pub fn all<'a>(db: &'a Db) -> (r: Vec<&'a Manager>)
        ensures
            r@.map_values(|m: &Manager| m@) == db@.managers.filter(|m: ManagerV| !m.is_deleted),
    {
        let ghost f = |m: ManagerV| !m.is_deleted;
        let mut out: Vec<&'a Manager> = Vec::new();
        let n: usize = db.managers.len();
        let mut i: usize = 0;
        proof {
            reveal(Seq::filter);
            assert(out@.map_values(|m: &Manager| m@) =~= db@.managers.take(0).filter(f));
        }
        while i < n
            invariant
                i <= n,
                n == db@.managers.len(),
                f == (|m: ManagerV| !m.is_deleted),
                out@.map_values(|m: &Manager| m@) == db@.managers.take(i as int).filter(f),
            decreases n - i,
        {
            proof {
                reveal(Seq::filter);
                let prefix = db@.managers.take(i as int);
                let step = db@.managers.take(i as int + 1);
                assert(step.drop_last() =~= prefix);
                assert(step.last() == db@.managers[i as int]);
            }
            if !db.managers[i].is_deleted {
                out.push(&db.managers[i]);
                proof {
                    assert(out@.map_values(|m: &Manager| m@) =~= db@.managers.take(
                        i as int + 1,
                    ).filter(f));
                }
            } else {
                proof {
                    assert(out@.map_values(|m: &Manager| m@) =~= db@.managers.take(
                        i as int + 1,
                    ).filter(f));
                }
            }
            i += 1;
        }
        proof {
            assert(db@.managers.take(n as int) =~= db@.managers);
        }
        out
    }
}

/// Admission of a manager by the administrator: upsert the row for the
/// identity.  Applied twice, it leaves the single row it made.
pub fn add_manager(db: &mut Db, gid: GroupId, now: i64) -> (r: i64)
    requires
        wf_db(old(db)@),
        old(db)@.managers.len() < i64::MAX,
    ensures
        wf_db(final(db)@),
        final(db)@ == (DbV {
            managers: manager_upsert(old(db)@.managers, gid@, now),
            ..old(db)@
        }),
        ({
            let i = manager_index(old(db)@.managers, gid@);
            r == if i >= 0 {
                old(db)@.managers[i].id
            } else {
                (old(db)@.managers.len() + 1) as i64
            }
        }),
{
    let mut manager = Manager::new(gid, now);
    manager.insert(db);
    proof {
        lemma_manager_index(old(db)@.managers, gid@);
        assert(db@ =~~= (DbV {
            managers: manager_upsert(old(db)@.managers, gid@, now),
            ..old(db)@
        }));
    }
    manager.id
}

/// Withdrawal of a manager: soft-delete the identity's row, if it has one.
#[verifier::loop_isolation(false)]
pub fn remove_manager(db: &mut Db, gid: &GroupId) -> (r: ())
    requires
        wf_db(old(db)@),
    ensures
        wf_db(final(db)@),
        final(db)@ == (DbV { managers: final(db)@.managers, ..old(db)@ }),
        ({
            let i = manager_index(old(db)@.managers, gid@);
            if i >= 0 {
                final(db)@.managers == old(db)@.managers.update(
                    i,
                    ManagerV { is_deleted: true, ..old(db)@.managers[i] },
                )
            } else {
                final(db)@.managers == old(db)@.managers
            }
        }),
{
    let n: usize = db.managers.len();
    let mut i: usize = 0;
    while i < n
        invariant
            i <= n,
            n == db@.managers.len(),
            *db == *old(db),
            forall|j: int| 0 <= j < i ==> (#[trigger] db@.managers[j]).gid != gid@,
        decreases n - i,
    {
        if db.managers[i].gid.eq_id(gid) {
            proof {
                lemma_manager_index_prefix(db@.managers, gid@, i as int);
            }
            let row = Manager {
                id: db.managers[i].id,
                gid: db.managers[i].gid.duplicate(),
                times: db.managers[i].times,
                is_closed: db.managers[i].is_closed,
                datetime: db.managers[i].datetime,
                is_deleted: true,
            };
            db.managers.set(i, row);
            proof {
                let x = ManagerV { is_deleted: true, ..old(db)@.managers[i as int] };
                assert(db@.managers =~= old(db)@.managers.update(i as int, x));
                assert(db@.groups =~= old(db)@.groups);
                assert(db@.members =~= old(db)@.members);
                assert(db@.requests =~= old(db)@.requests);
                assert(db@.messages =~= old(db)@.messages);
                assert(db@ =~= (DbV { managers: old(db)@.managers.update(i as int, x), ..old(db)@ }));
                lemma_wf_manager_update(old(db)@, i as int, x);
            }
            return ;
        }
        i += 1;
    }
    proof {
        lemma_manager_index(db@.managers, gid@);
    }
}

/// The live manager rows — the administrator's listing.
pub fn list_managers<'a>(db: &'a Db) -> (r: Vec<&'a Manager>)
    ensures
        r@.map_values(|m: &Manager| m@) == db@.managers.filter(|m: ManagerV| !m.is_deleted),
{
    Manager::all(db)
}

impl GroupChat {
    /// A fresh group row, not yet inserted: height zero, open for business.
    pub fn new(
        owner: GroupId,
        g_id: GroupId,
        g_type: GroupType,
        g_name: String,
        g_bio: String,
        is_need_agree: bool,
        key_hash: Vec<u8>,
        datetime: i64,
    ) -> (r: GroupChat)
        ensures
            r@ == (GroupChatV {
                id: 0,
                owner: owner@,
                height: 0,
                g_id: g_id@,
                g_type,
                g_name: g_name@,
                g_bio: g_bio@,
                is_need_agree,
                key_hash: key_hash@,
                is_closed: false,
                datetime,
                is_deleted: false,
            }),
    {
        GroupChat {
            id: 0,
            owner,
            height: 0,
            g_id,
            g_type,
            g_name,
            g_bio,
            is_need_agree,
            key_hash,
            is_closed: false,
            datetime,
            is_deleted: false,
        }
    }

    /// The group row with the given id, when it is live.
    pub fn get_id<'a>(db: &'a Db, id: i64) -> (r: Result<&'a GroupChat, ServerError>)
        ensures
            match r {
                Ok(g) => 1 <= id <= db@.groups.len() && !db@.groups[id - 1].is_deleted && g@
                    == db@.groups[id - 1],
                Err(e) => (id < 1 || id > db@.groups.len() || db@.groups[id - 1].is_deleted) && e
                    == ServerError::NotFound,
            },
    {
        let n: usize = db.groups.len();
        if id < 1 {
            return Err(ServerError::NotFound);
        }
        if id as u64 > n as u64 {
            return Err(ServerError::NotFound);
        }
        let idx: usize = (id - 1) as usize;
        if db.groups[idx].is_deleted {
            return Err(ServerError::NotFound);
        }
        Ok(&db.groups[idx])
    }

    /// The live group rows, in id order.
    #[verifier::loop_isolation(false)]
    pub fn all<'a>(db: &'a Db) -> (r: Vec<&'a GroupChat>)
        ensures
            r@.map_values(|g: &GroupChat| g@) == db@.groups.filter(|g: GroupChatV| !g.is_deleted),
    {
        let ghost f = |g: GroupChatV| !g.is_deleted;
        let mut out: Vec<&'a GroupChat> = Vec::new();
        let n: usize = db.groups.len();
        let mut i: usize = 0;
        proof {
            reveal(Seq::filter);
            assert(out@.map_values(|g: &GroupChat| g@) =~= db@.groups.take(0).filter(f));
        }
        while i < n
            invariant
                i <= n,
                out@.map_values(|g: &GroupChat| g@) == db@.groups.take(i as int).filter(f),
            decreases n - i,
        {
            proof {
                reveal(Seq::filter);
                let prefix = db@.groups.take(i as int);
                let step = db@.groups.take(i as int + 1);
                assert(step.drop_last() =~= prefix);
                assert(step.last() == db@.groups[i as int]);
            }
            if !db.groups[i].is_deleted {
                out.push(&db.groups[i]);
                proof {
                    assert(out@.map_values(|g: &GroupChat| g@) =~= db@.groups.take(
                        i as int + 1,
                    ).filter(f));
                }
            } else {
                proof {
                    assert(out@.map_values(|g: &GroupChat| g@) =~= db@.groups.take(
                        i as int + 1,
                    ).filter(f));
                }
            }
            i += 1;
        }
        proof {
            assert(db@.groups.take(n as int) =~= db@.groups);
        }
        out
    }

    /// Inserts the group, refusing a group id that is already taken;
    /// `self.id` afterwards names the stored row.
    #[verifier::loop_isolation(false)]
    pub fn insert(&mut self, db: &mut Db) -> (r: Result<(), ServerError>)
        requires
            wf_db(old(db)@),
            old(self)@.height == 0,
            old(db)@.groups.len() < i64::MAX,
        ensures
            wf_db(final(db)@),
            r is Ok <==> group_index(old(db)@.groups, old(self)@.g_id) < 0,
            r is Err ==> final(db)@ == old(db)@ && *final(self) == *old(self) && r
                == Err::<(), ServerError>(ServerError::UniqueViolation),
            r is Ok ==> {
                &&& final(db)@ == (DbV {
                    groups: old(db)@.groups.push(
                        GroupChatV { id: (old(db)@.groups.len() + 1) as i64, ..old(self)@ },
                    ),
                    ..old(db)@
                })
                &&& final(self)@ == (GroupChatV {
                    id: (old(db)@.groups.len() + 1) as i64,
                    ..old(self)@
                })
            },
    {
        let n: usize = db.groups.len();
        let mut i: usize = 0;
        while i < n
            invariant
                i <= n,
                *db == *old(db),
                *self == *old(self),
                forall|j: int| 0 <= j < i ==> (#[trigger] db@.groups[j]).g_id != self@.g_id,
            decreases n - i,
        {
            if db.groups[i].g_id.eq_id(&self.g_id) {
                proof {
                    lemma_group_index_prefix(db@.groups, self@.g_id, i as int);
                }
                return Err(ServerError::UniqueViolation);
            }
            i += 1;
        }
        proof {
            lemma_group_index(db@.groups, self@.g_id);
        }
        let id: i64 = i64_of_len(n);
        self.id = id;
        let row = GroupChat {
            id,
            owner: self.owner.duplicate(),
            height: self.height,
            g_id: self.g_id.duplicate(),
            g_type: self.g_type,
            g_name: self.g_name.clone(),
            g_bio: self.g_bio.clone(),
            is_need_agree: self.is_need_agree,
            key_hash: crate::ids::copy_bytes(&self.key_hash),
            is_closed: self.is_closed,
            datetime: self.datetime,
            is_deleted: self.is_deleted,
        };
        db.groups.push(row);
        proof {
            let x = GroupChatV { id: (old(db)@.groups.len() + 1) as i64, ..old(self)@ };
            assert(db@.groups =~= old(db)@.groups.push(x));
            assert(db@.managers =~= old(db)@.managers);
            assert(db@.members =~= old(db)@.members);
            assert(db@.requests =~= old(db)@.requests);
            assert(db@.messages =~= old(db)@.messages);
            assert(db@ =~= (DbV { groups: old(db)@.groups.push(x), ..old(db)@ }));
            lemma_wf_group_push(old(db)@, x);
        }
        Ok(())
    }

    /// Records a new height for a group row.  This is the raw write the
    /// height step uses between appending the log row and finishing; on its
    /// own it does not keep the log invariants, so the caller re-establishes
    /// them.
    pub fn add_height(db: &mut Db, id: i64, height: i64) -> (r: ())
        requires
            1 <= id <= old(db)@.groups.len(),
        ensures
            final(db)@ == (DbV {
                groups: old(db)@.groups.update(
                    id - 1,
                    GroupChatV { height, ..old(db)@.groups[id - 1] },
                ),
                ..old(db)@
            }),
    {
        proof {
            assert(db@.groups[id - 1] == db.groups@[id - 1]@);
        }
        let n: usize = db.groups.len();
        let idx: usize = (id - 1) as usize;
        let row = GroupChat {
            id: db.groups[idx].id,
            owner: db.groups[idx].owner.duplicate(),
            height,
            g_id: db.groups[idx].g_id.duplicate(),
            g_type: db.groups[idx].g_type,
            g_name: db.groups[idx].g_name.clone(),
            g_bio: db.groups[idx].g_bio.clone(),
            is_need_agree: db.groups[idx].is_need_agree,
            key_hash: crate::ids::copy_bytes(&db.groups[idx].key_hash),
            is_closed: db.groups[idx].is_closed,
            datetime: db.groups[idx].datetime,
            is_deleted: db.groups[idx].is_deleted,
        };
        db.groups.set(idx, row);
        proof {
            let x = GroupChatV { height, ..old(db)@.groups[id - 1] };
            assert(db@.groups =~= old(db)@.groups.update(id - 1, x));
            assert(db@.managers =~= old(db)@.managers);
            assert(db@.members =~= old(db)@.members);
            assert(db@.requests =~= old(db)@.requests);
            assert(db@.messages =~= old(db)@.messages);
            assert(db@ =~= (DbV { groups: old(db)@.groups.update(id - 1, x), ..old(db)@ }));
        }
    }

    /// The group description sent to admitted members, with the group
    /// avatar inlined.  The owner's name and avatar travel separately on
    /// the member rows, so they stay empty here.
    pub fn to_group_info(&self, avatar: Vec<u8>) -> (r: crate::events::GroupInfo)
        ensures
            r matches crate::events::GroupInfo::Common(
                owner,
                owner_name,
                owner_avatar,
                g_id,
                g_type,
                need_agree,
                name,
                bio,
                av,
            ) && owner@ == self@.owner && owner_name@ == Seq::<char>::empty() && owner_avatar@
                == Seq::<u8>::empty() && g_id@ == self@.g_id && g_type == self@.g_type
                && need_agree == self@.is_need_agree && name@ == self@.g_name && bio@
                == self@.g_bio && av@ == avatar@,
    {
        crate::events::GroupInfo::Common(
            self.owner.duplicate(),
            String::new(),
            Vec::new(),
            self.g_id.duplicate(),
            self.g_type,
            self.is_need_agree,
            self.g_name.clone(),
            self.g_bio.clone(),
            avatar,
        )
    }
}

impl Member {
    /// A fresh member row, not yet inserted.
    pub fn new(
        fid: i64,
        m_id: GroupId,
        m_addr: PeerAddr,
        m_name: String,
        is_manager: bool,
        datetime: i64,
    ) -> (r: Member)
        ensures
            r@ == (MemberV {
                id: 0,
                fid,
                m_id: m_id@,
                m_addr: m_addr@,
                m_name: m_name@,
                is_manager,
                datetime,
                is_deleted: false,
            }),
    {
        Member { id: 0, fid, m_id, m_addr, m_name, is_manager, datetime, is_deleted: false }
    }

    /// Upserts this row by `(fid, m_id)`: an existing row for the key keeps
    /// its id but takes the address, name, manager flag and time and comes
    /// back from soft deletion; otherwise the row is appended.  Either way
    /// `self.id` afterwards names the stored row.
    #[verifier::loop_isolation(false)]
    pub fn insert(&mut self, db: &mut Db) -> (r: ())
        requires
            wf_db(old(db)@),
            1 <= old(self)@.fid <= old(db)@.groups.len(),
            old(db)@.members.len() < i64::MAX,
        ensures
            wf_db(final(db)@),
            final(db)@ == (DbV { members: final(db)@.members, ..old(db)@ }),
            ({
                let i = member_index(old(db)@.members, old(self)@.fid, old(self)@.m_id);
                if i >= 0 {
                    &&& final(db)@.members == old(db)@.members.update(
                        i,
                        MemberV {
                            m_addr: old(self)@.m_addr,
                            m_name: old(self)@.m_name,
                            is_manager: old(self)@.is_manager,
                            datetime: old(self)@.datetime,
                            is_deleted: false,
                            ..old(db)@.members[i]
                        },
                    )
                    &&& final(self)@ == (MemberV { id: old(db)@.members[i].id, ..old(self)@ })
                } else {
                    &&& final(db)@.members == old(db)@.members.push(
                        MemberV { id: (old(db)@.members.len() + 1) as i64, ..old(self)@ },
                    )
                    &&& final(self)@ == (MemberV {
                        id: (old(db)@.members.len() + 1) as i64,
                        ..old(self)@
                    })
                }
            }),
    {
        let n: usize = db.members.len();
        let mut i: usize = 0;
        while i < n
            invariant
                i <= n,
                *db == *old(db),
                *self == *old(self),
                forall|j: int|
                    0 <= j < i ==> !((#[trigger] db@.members[j]).fid == self@.fid
                        && db@.members[j].m_id == self@.m_id),
            decreases n - i,
        {
            if db.members[i].fid == self.fid && db.members[i].m_id.eq_id(&self.m_id) {
                proof {
                    lemma_member_index_prefix(db@.members, self@.fid, self@.m_id, i as int);
                }
                self.id = db.members[i].id;
                let row = Member {
                    id: db.members[i].id,
                    fid: db.members[i].fid,
                    m_id: db.members[i].m_id.duplicate(),
                    m_addr: self.m_addr.duplicate(),
                    m_name: self.m_name.clone(),
                    is_manager: self.is_manager,
                    datetime: self.datetime,
                    is_deleted: false,
                };
                db.members.set(i, row);
                proof {
                    let iv = i as int;
                    let x = MemberV {
                        m_addr: old(self)@.m_addr,
                        m_name: old(self)@.m_name,
                        is_manager: old(self)@.is_manager,
                        datetime: old(self)@.datetime,
                        is_deleted: false,
                        ..old(db)@.members[iv]
                    };
                    assert(db@.members =~= old(db)@.members.update(iv, x));
                    assert(db@.managers =~= old(db)@.managers);
                    assert(db@.groups =~= old(db)@.groups);
                    assert(db@.requests =~= old(db)@.requests);
                    assert(db@.messages =~= old(db)@.messages);
                    assert(db@ =~= (DbV { members: old(db)@.members.update(iv, x), ..old(db)@ }));
                    lemma_wf_member_update(old(db)@, iv, x);
                }
                return ;
            }
            i += 1;
        }
        proof {
            lemma_member_index(db@.members, self@.fid, self@.m_id);
        }
        let id: i64 = i64_of_len(n);
        self.id = id;
        let row = Member {
            id,
            fid: self.fid,
            m_id: self.m_id.duplicate(),
            m_addr: self.m_addr.duplicate(),
            m_name: self.m_name.clone(),
            is_manager: self.is_manager,
            datetime: self.datetime,
            is_deleted: self.is_deleted,
        };
        db.members.push(row);
        proof {
            let x = MemberV { id: (old(db)@.members.len() + 1) as i64, ..old(self)@ };
            assert(db@.members =~= old(db)@.members.push(x));
            assert(db@.managers =~= old(db)@.managers);
            assert(db@.groups =~= old(db)@.groups);
            assert(db@.requests =~= old(db)@.requests);
            assert(db@.messages =~= old(db)@.messages);
            assert(db@ =~= (DbV { members: old(db)@.members.push(x), ..old(db)@ }));
            lemma_wf_member_push(old(db)@, x);
        }
    }

    /// Whether the identity is a live member of the group.
    #[verifier::loop_isolation(false)]
    pub fn exist(db: &Db, fid: i64, mid: &GroupId) -> (r: bool)
        ensures
            r == ({
                let i = member_index(db@.members, fid, mid@);
                i >= 0 && !db@.members[i].is_deleted
            }),
    {
        let n: usize = db.members.len();
        let mut i: usize = 0;
        while i < n
            invariant
                i <= n,
                forall|j: int|
                    0 <= j < i ==> !((#[trigger] db@.members[j]).fid == fid && db@.members[j].m_id
                        == mid@),
            decreases n - i,
        {
            if db.members[i].fid == fid && db.members[i].m_id.eq_id(mid) {
                proof {
                    lemma_member_index_prefix(db@.members, fid, mid@, i as int);
                }
                return !db.members[i].is_deleted;
            }
            i += 1;
        }
        proof {
            lemma_member_index(db@.members, fid, mid@);
        }
        false
    }

    /// The live member row of an identity in a group.
    #[verifier::loop_isolation(false)]
    pub fn get<'a>(db: &'a Db, fid: i64, mid: &GroupId) -> (r: Result<&'a Member, ServerError>)
        ensures
            ({
                let i = member_index(db@.members, fid, mid@);
                match r {
                    Ok(m) => i >= 0 && !db@.members[i].is_deleted && m@ == db@.members[i],
                    Err(e) => (i < 0 || db@.members[i].is_deleted) && e == ServerError::NotFound,
                }
            }),
    {
        let n: usize = db.members.len();
        let mut i: usize = 0;
        while i < n
            invariant
                i <= n,
                forall|j: int|
                    0 <= j < i ==> !((#[trigger] db@.members[j]).fid == fid && db@.members[j].m_id
                        == mid@),
            decreases n - i,
        {
            if db.members[i].fid == fid && db.members[i].m_id.eq_id(mid) {
                proof {
                    lemma_member_index_prefix(db@.members, fid, mid@, i as int);
                }
                if db.members[i].is_deleted {
                    return Err(ServerError::NotFound);
                }
                return Ok(&db.members[i]);
            }
            i += 1;
        }
        proof {
            lemma_member_index(db@.members, fid, mid@);
        }
        Err(ServerError::NotFound)
    }

    /// The member row with the given id, live or not.
    pub fn get_id<'a>(db: &'a Db, id: i64) -> (r: Result<&'a Member, ServerError>)
        ensures
            match r {
                Ok(m) => 1 <= id <= db@.members.len() && m@ == db@.members[id - 1],
                Err(e) => (id < 1 || id > db@.members.len()) && e == ServerError::NotFound,
            },
    {
        let n: usize = db.members.len();
        if id < 1 {
            return Err(ServerError::NotFound);
        }
        if id as u64 > n as u64 {
            return Err(ServerError::NotFound);
        }
        let idx: usize = (id - 1) as usize;
        Ok(&db.members[idx])
    }

    /// Soft-deletes the member row with the given id.
    pub fn leave(db: &mut Db, id: i64) -> (r: ())
        requires
            wf_db(old(db)@),
            1 <= id <= old(db)@.members.len(),
        ensures
            wf_db(final(db)@),
            final(db)@ == (DbV {
                members: old(db)@.members.update(
                    id - 1,
                    MemberV { is_deleted: true, ..old(db)@.members[id - 1] },
                ),
                ..old(db)@
            }),
    {
        proof {
            assert(db@.members[id - 1] == db.members@[id - 1]@);
        }
        let n: usize = db.members.len();
        let idx: usize = (id - 1) as usize;
        let row = Member {
            id: db.members[idx].id,
            fid: db.members[idx].fid,
            m_id: db.members[idx].m_id.duplicate(),
            m_addr: db.members[idx].m_addr.duplicate(),
            m_name: db.members[idx].m_name.clone(),
            is_manager: db.members[idx].is_manager,
            datetime: db.members[idx].datetime,
            is_deleted: true,
        };
        db.members.set(idx, row);
        proof {
            let x = MemberV { is_deleted: true, ..old(db)@.members[id - 1] };
            assert(db@.members =~= old(db)@.members.update(id - 1, x));
            assert(db@.managers =~= old(db)@.managers);
            assert(db@.groups =~= old(db)@.groups);
            assert(db@.requests =~= old(db)@.requests);
            assert(db@.messages =~= old(db)@.messages);
            assert(db@ =~= (DbV { members: old(db)@.members.update(id - 1, x), ..old(db)@ }));
            lemma_wf_member_update(old(db)@, id - 1, x);
        }
    }

    /// Whether the identity is a live manager-member of the group.
    #[verifier::loop_isolation(false)]
    pub fn is_manager(db: &Db, fid: i64, mid: &GroupId) -> (r: bool)
        ensures
            r == ({
                let i = member_index(db@.members, fid, mid@);
                i >= 0 && !db@.members[i].is_deleted && db@.members[i].is_manager
            }),
    {
        let n: usize = db.members.len();
        let mut i: usize = 0;
        while i < n
            invariant
                i <= n,
                forall|j: int|
                    0 <= j < i ==> !((#[trigger] db@.members[j]).fid == fid && db@.members[j].m_id
                        == mid@),
            decreases n - i,
        {
            if db.members[i].fid == fid && db.members[i].m_id.eq_id(mid) {
                proof {
                    lemma_member_index_prefix(db@.members, fid, mid@, i as int);
                }
                return !db.members[i].is_deleted && db.members[i].is_manager;
            }
            i += 1;
        }
        proof {
            lemma_member_index(db@.members, fid, mid@);
        }
        false
    }
}

impl Request {
    /// A fresh request row, not yet inserted.
    pub fn new(fid: i64, m_id: GroupId, m_addr: PeerAddr, m_name: String, datetime: i64) -> (r:
        Request)
        ensures
            r@ == (RequestV {
                id: 0,
                fid,
                m_id: m_id@,
                m_addr: m_addr@,
                m_name: m_name@,
                datetime,
            }),
    {
        Request { id: 0, fid, m_id, m_addr, m_name, datetime }
    }

    /// Appends the request; `self.id` afterwards names the stored row.
    pub fn insert(&mut self, db: &mut Db) -> (r: ())
        requires
            wf_db(old(db)@),
            1 <= old(self)@.fid <= old(db)@.groups.len(),
            old(db)@.requests.len() < i64::MAX,
        ensures
            wf_db(final(db)@),
            final(db)@ == (DbV {
                requests: old(db)@.requests.push(
                    RequestV { id: (old(db)@.requests.len() + 1) as i64, ..old(self)@ },
                ),
                ..old(db)@
            }),
            final(self)@ == (RequestV { id: (old(db)@.requests.len() + 1) as i64, ..old(self)@ }),
    {
        let n: usize = db.requests.len();
        let id: i64 = i64_of_len(n);
        self.id = id;
        let row = Request {
            id,
            fid: self.fid,
            m_id: self.m_id.duplicate(),
            m_addr: self.m_addr.duplicate(),
            m_name: self.m_name.clone(),
            datetime: self.datetime,
        };
        db.requests.push(row);
        proof {
            let x = RequestV { id: (old(db)@.requests.len() + 1) as i64, ..old(self)@ };
            assert(db@.requests =~= old(db)@.requests.push(x));
            assert(db@.managers =~= old(db)@.managers);
            assert(db@.groups =~= old(db)@.groups);
            assert(db@.members =~= old(db)@.members);
            assert(db@.messages =~= old(db)@.messages);
            assert(db@ =~= (DbV { requests: old(db)@.requests.push(x), ..old(db)@ }));
            lemma_wf_request_push(old(db)@, x);
        }
    }

    /// The request row with the given id.
    pub fn get<'a>(db: &'a Db, id: i64) -> (r: Result<&'a Request, ServerError>)
        ensures
            match r {
                Ok(q) => 1 <= id <= db@.requests.len() && q@ == db@.requests[id - 1],
                Err(e) => (id < 1 || id > db@.requests.len()) && e == ServerError::NotFound,
            },
    {
        let n: usize = db.requests.len();
        if id < 1 {
            return Err(ServerError::NotFound);
        }
        if id as u64 > n as u64 {
            return Err(ServerError::NotFound);
        }
        let idx: usize = (id - 1) as usize;
        Ok(&db.requests[idx])
    }

    /// The member row an approved request promotes to.
    pub fn to_member(&self) -> (r: Member)
        ensures
            r@ == (MemberV {
                id: 0,
                fid: self@.fid,
                m_id: self@.m_id,
                m_addr: self@.m_addr,
                m_name: self@.m_name,
                is_manager: false,
                datetime: self@.datetime,
                is_deleted: false,
            }),
    {
        Member {
            id: 0,
            fid: self.fid,
            m_id: self.m_id.duplicate(),
            m_addr: self.m_addr.duplicate(),
            m_name: self.m_name.clone(),
            is_manager: false,
            datetime: self.datetime,
            is_deleted: false,
        }
    }
}

/// Replacing a manager row without touching its id or identity keeps the
/// tables well formed.
pub proof fn lemma_wf_manager_update(d: DbV, i: int, x: ManagerV)
    requires
        wf_db(d),
        0 <= i < d.managers.len(),
        x.id == d.managers[i].id,
        x.gid == d.managers[i].gid,
    ensures
        wf_db(DbV { managers: d.managers.update(i, x), ..d }),
{
}

/// Appending a manager row with the next id and a fresh identity keeps the
/// tables well formed.
pub proof fn lemma_wf_manager_push(d: DbV, x: ManagerV)
    requires
        wf_db(d),
        x.id == d.managers.len() + 1,
        forall|j: int| 0 <= j < d.managers.len() ==> (#[trigger] d.managers[j]).gid != x.gid,
    ensures
        wf_db(DbV { managers: d.managers.push(x), ..d }),
{
    let d2 = DbV { managers: d.managers.push(x), ..d };
    assert forall|i: int| 0 <= i < d2.managers.len() implies (#[trigger] d2.managers[i]).id == i
        + 1 by {
        if i < d.managers.len() {
            assert(d2.managers[i] == d.managers[i]);
        }
    }
}

/// Replacing a member row without touching its id, group or identity keeps
/// the tables well formed.
pub proof fn lemma_wf_member_update(d: DbV, i: int, x: MemberV)
    requires
        wf_db(d),
        0 <= i < d.members.len(),
        x.id == d.members[i].id,
        x.fid == d.members[i].fid,
        x.m_id == d.members[i].m_id,
    ensures
        wf_db(DbV { members: d.members.update(i, x), ..d }),
{
}

/// Appending a member row with the next id, a valid group and a key no
/// other row has keeps the tables well formed.
pub proof fn lemma_wf_member_push(d: DbV, x: MemberV)
    requires
        wf_db(d),
        x.id == d.members.len() + 1,
        1 <= x.fid <= d.groups.len(),
        forall|j: int|
            0 <= j < d.members.len() ==> !((#[trigger] d.members[j]).fid == x.fid
                && d.members[j].m_id == x.m_id),
    ensures
        wf_db(DbV { members: d.members.push(x), ..d }),
{
    let d2 = DbV { members: d.members.push(x), ..d };
    assert forall|i: int| 0 <= i < d2.members.len() implies (#[trigger] d2.members[i]).id == i
        + 1 by {
        if i < d.members.len() {
            assert(d2.members[i] == d.members[i]);
        }
    }
    assert forall|i: int| 0 <= i < d2.consensus.len() implies {
        let c = #[trigger] d2.consensus[i];
        &&& 1 <= c.fid <= d2.groups.len()
        &&& 1 <= c.height <= d2.groups[c.fid - 1].height
        &&& cid_ok(c.ctype, c.cid, d2.members.len() as int, d2.messages.len() as int)
    } by {
        assert(d.consensus[i] == d2.consensus[i]);
        assert(cid_ok(d.consensus[i].ctype, d.consensus[i].cid, d.members.len() as int, d.messages.len() as int));
    }
}

/// Appending a group row with the next id, a fresh group id and height
/// zero keeps the tables well formed.
pub proof fn lemma_wf_group_push(d: DbV, x: GroupChatV)
    requires
        wf_db(d),
        x.id == d.groups.len() + 1,
        x.height == 0,
        forall|j: int| 0 <= j < d.groups.len() ==> (#[trigger] d.groups[j]).g_id != x.g_id,
    ensures
        wf_db(DbV { groups: d.groups.push(x), ..d }),
{
    let d2 = DbV { groups: d.groups.push(x), ..d };
    assert forall|i: int| 0 <= i < d2.groups.len() implies (#[trigger] d2.groups[i]).id == i
        + 1 by {
        if i < d.groups.len() {
            assert(d2.groups[i] == d.groups[i]);
        }
    }
    assert forall|i: int| 0 <= i < d2.consensus.len() implies {
        let c = #[trigger] d2.consensus[i];
        &&& 1 <= c.fid <= d2.groups.len()
        &&& 1 <= c.height <= d2.groups[c.fid - 1].height
        &&& cid_ok(c.ctype, c.cid, d2.members.len() as int, d2.messages.len() as int)
    } by {
        let c = d2.consensus[i];
        assert(c == d.consensus[i]);
        assert(1 <= c.fid <= d.groups.len());
        assert(d2.groups[c.fid - 1] == d.groups[c.fid - 1]);
    }
    assert forall|k: int, h: i64|
        0 <= k < d2.groups.len() && 1 <= h <= d2.groups[k].height implies #[trigger] consensus_index(
        d2.consensus,
        (k + 1) as i64,
        h,
    ) >= 0 by {
        if k < d.groups.len() {
            assert(d2.groups[k] == d.groups[k]);
        } else {
            assert(d2.groups[k] == x);
        }
    }
    assert forall|k: int| 0 <= k < d2.groups.len() implies count_fid(d2.consensus, (k + 1) as i64)
        == (#[trigger] d2.groups[k]).height by {
        if k < d.groups.len() {
            assert(d2.groups[k] == d.groups[k]);
        } else {
            assert(d2.groups[k] == x);
            assert forall|i: int| 0 <= i < d.consensus.len() implies (#[trigger] d.consensus[i]).fid
                != (k + 1) as i64 by {
                assert(1 <= d.consensus[i].fid <= d.groups.len());
            }
            lemma_count_fid_absent(d.consensus, (k + 1) as i64);
        }
    }
}

/// Appending a request row with the next id and a valid group keeps the
/// tables well formed.
pub proof fn lemma_wf_request_push(d: DbV, x: RequestV)
    requires
        wf_db(d),
        x.id == d.requests.len() + 1,
        1 <= x.fid <= d.groups.len(),
    ensures
        wf_db(DbV { requests: d.requests.push(x), ..d }),
{
    let d2 = DbV { requests: d.requests.push(x), ..d };
    assert forall|i: int| 0 <= i < d2.requests.len() implies (#[trigger] d2.requests[i]).id == i
        + 1 by {
        if i < d.requests.len() {
            assert(d2.requests[i] == d.requests[i]);
        }
    }
}

/// Appending a message row with the next id and a valid sender keeps the
/// tables well formed.
pub proof fn lemma_wf_message_push(d: DbV, x: MessageRowV)
    requires
        wf_db(d),
        x.id == d.messages.len() + 1,
        1 <= x.mid <= d.members.len(),
    ensures
        wf_db(DbV { messages: d.messages.push(x), ..d }),
{
    let d2 = DbV { messages: d.messages.push(x), ..d };
    assert forall|i: int| 0 <= i < d2.messages.len() implies (#[trigger] d2.messages[i]).id == i
        + 1 by {
        if i < d.messages.len() {
            assert(d2.messages[i] == d.messages[i]);
        }
    }
    assert forall|i: int| 0 <= i < d2.consensus.len() implies {
        let c = #[trigger] d2.consensus[i];
        &&& 1 <= c.fid <= d2.groups.len()
        &&& 1 <= c.height <= d2.groups[c.fid - 1].height
        &&& cid_ok(c.ctype, c.cid, d2.members.len() as int, d2.messages.len() as int)
    } by {
        assert(d.consensus[i] == d2.consensus[i]);
        assert(cid_ok(d.consensus[i].ctype, d.consensus[i].cid, d.members.len() as int, d.messages.len() as int));
    }
}

/// The upsert the member table performs: an existing row for the
/// `(fid, m_id)` key takes the new address, name, manager flag and time
/// and comes back from soft deletion; otherwise the row is appended with
/// the next id.
pub open spec fn member_upsert(ms: Seq<MemberV>, row: MemberV) -> Seq<MemberV> {
    let i = member_index(ms, row.fid, row.m_id);
    if i >= 0 {
        ms.update(
            i,
            MemberV {
                m_addr: row.m_addr,
                m_name: row.m_name,
                is_manager: row.is_manager,
                datetime: row.datetime,
                is_deleted: false,
                ..ms[i]
            },
        )
    } else {
        ms.push(MemberV { id: (ms.len() + 1) as i64, ..row })
    }
}

/// The id under which the member upsert stores the row.
pub open spec fn member_upsert_id(ms: Seq<MemberV>, row: MemberV) -> i64 {
    let i = member_index(ms, row.fid, row.m_id);
    if i >= 0 {
        ms[i].id
    } else {
        (ms.len() + 1) as i64
    }
}

/// A match strictly before the first member match contradicts it being
/// the first.
proof fn lemma_member_index_first(ms: Seq<MemberV>, fid: i64, m_id: Seq<u8>, j: int)
    requires
        0 <= j < ms.len(),
        ms[j].fid == fid && ms[j].m_id == m_id,
    ensures
        0 <= member_index(ms, fid, m_id) <= j,
    decreases ms.len(),
{
    if !(ms[0].fid == fid && ms[0].m_id == m_id) {
        assert(ms.skip(1)[j - 1] == ms[j]);
        lemma_member_index_first(ms.skip(1), fid, m_id, j - 1);
    }
}

/// Upserting a key leaves its first-match position holding that key.
pub proof fn lemma_member_upsert_index(ms: Seq<MemberV>, row: MemberV)
    ensures
        member_index(member_upsert(ms, row), row.fid, row.m_id) == (if member_index(
            ms,
            row.fid,
            row.m_id,
        ) >= 0 {
            member_index(ms, row.fid, row.m_id)
        } else {
            ms.len() as int
        }),
{
    lemma_member_index(ms, row.fid, row.m_id);
    let i = member_index(ms, row.fid, row.m_id);
    let ms2 = member_upsert(ms, row);
    if i >= 0 {
        assert(ms2[i].fid == row.fid && ms2[i].m_id == row.m_id);
        assert forall|j: int| 0 <= j < i implies !((#[trigger] ms2[j]).fid == row.fid
            && ms2[j].m_id == row.m_id) by {
            assert(ms2[j] == ms[j]);
            if ms[j].fid == row.fid && ms[j].m_id == row.m_id {
                lemma_member_index_first(ms, row.fid, row.m_id, j);
            }
        }
        lemma_member_index_prefix(ms2, row.fid, row.m_id, i);
    } else {
        assert(ms2[ms.len() as int].fid == row.fid && ms2[ms.len() as int].m_id == row.m_id);
        assert forall|j: int| 0 <= j < ms.len() implies !((#[trigger] ms2[j]).fid == row.fid
            && ms2[j].m_id == row.m_id) by {
            assert(ms2[j] == ms[j]);
        }
        lemma_member_index_prefix(ms2, row.fid, row.m_id, ms.len() as int);
    }
}

/// The member upsert is idempotent: applied twice with identical inputs
/// it leaves the single row the first application stored.
pub proof fn lemma_member_upsert_idempotent(ms: Seq<MemberV>, row: MemberV)
    requires
        !row.is_deleted,
    ensures
        member_upsert(member_upsert(ms, row), row) == member_upsert(ms, row),
{
    lemma_member_index(ms, row.fid, row.m_id);
    lemma_member_upsert_index(ms, row);
    let i = member_index(ms, row.fid, row.m_id);
    let once = member_upsert(ms, row);
    if i >= 0 {
        assert(member_index(once, row.fid, row.m_id) == i);
        let x2 = MemberV {
            m_addr: row.m_addr,
            m_name: row.m_name,
            is_manager: row.is_manager,
            datetime: row.datetime,
            is_deleted: false,
            ..once[i]
        };
        assert(x2 =~= once[i]);
        assert(member_upsert(once, row) == once.update(i, x2));
        assert(once.update(i, x2) =~~= once);
    } else {
        let li = ms.len() as int;
        assert(member_index(once, row.fid, row.m_id) == li);
        assert(once[li] == (MemberV { id: (ms.len() + 1) as i64, ..row }));
        let x2 = MemberV {
            m_addr: row.m_addr,
            m_name: row.m_name,
            is_manager: row.is_manager,
            datetime: row.datetime,
            is_deleted: false,
            ..once[li]
        };
        assert(x2 =~= once[li]);
        assert(member_upsert(once, row) == once.update(li, x2));
        assert(once.update(li, x2) =~~= once);
    }
}

/// The upsert an admission of a manager performs: an existing row for the
/// identity keeps its id and creation count but is reopened and restamped;
/// otherwise a fresh row with the default creation count is appended.
pub open spec fn manager_upsert(ms: Seq<ManagerV>, gid: Seq<u8>, now: i64) -> Seq<ManagerV> {
    let i = manager_index(ms, gid);
    if i >= 0 {
        ms.update(i, ManagerV { is_closed: false, datetime: now, is_deleted: false, ..ms[i] })
    } else {
        ms.push(
            ManagerV {
                id: (ms.len() + 1) as i64,
                gid,
                times: DEFAULT_REMAIN,
                is_closed: false,
                datetime: now,
                is_deleted: false,
            },
        )
    }
}

/// A match strictly before the first manager match contradicts it being
/// the first.
pub proof fn lemma_manager_index_first(ms: Seq<ManagerV>, gid: Seq<u8>, j: int)
    requires
        0 <= j < ms.len(),
        ms[j].gid == gid,
    ensures
        0 <= manager_index(ms, gid) <= j,
    decreases ms.len(),
{
    if ms[0].gid != gid {
        assert(ms.skip(1)[j - 1] == ms[j]);
        lemma_manager_index_first(ms.skip(1), gid, j - 1);
    }
}

/// Admitting a manager twice leaves the single row the first admission
/// made, stamped with the later time.
pub proof fn lemma_manager_upsert_idempotent(ms: Seq<ManagerV>, gid: Seq<u8>, t1: i64, t2: i64)
    ensures
        manager_upsert(manager_upsert(ms, gid, t1), gid, t2) == manager_upsert(ms, gid, t2),
{
    lemma_manager_index(ms, gid);
    let i = manager_index(ms, gid);
    let once = manager_upsert(ms, gid, t1);
    if i >= 0 {
        assert(once[i].gid == gid);
        assert forall|j: int| 0 <= j < i implies (#[trigger] once[j]).gid != gid by {
            assert(once[j] == ms[j]);
            if ms[j].gid == gid {
                lemma_manager_index_first(ms, gid, j);
            }
        }
        lemma_manager_index_prefix(once, gid, i);
        assert(manager_upsert(once, gid, t2) =~= manager_upsert(ms, gid, t2));
    } else {
        assert(once[ms.len() as int].gid == gid);
        assert forall|j: int| 0 <= j < ms.len() implies (#[trigger] once[j]).gid != gid by {
            assert(once[j] == ms[j]);
        }
        lemma_manager_index_prefix(once, gid, ms.len() as int);
        assert(manager_upsert(once, gid, t2) =~= manager_upsert(ms, gid, t2));
    }
}

/// The member index looks only at keys, which updates of the other
/// columns do not touch.
pub proof fn lemma_member_index_same_keys(
    ms1: Seq<MemberV>,
    ms2: Seq<MemberV>,
    fid: i64,
    m_id: Seq<u8>,
)
    requires
        ms1.len() == ms2.len(),
        forall|j: int|
            0 <= j < ms1.len() ==> (#[trigger] ms1[j]).fid == (#[trigger] ms2[j]).fid
                && ms1[j].m_id == ms2[j].m_id,
    ensures
        member_index(ms1, fid, m_id) == member_index(ms2, fid, m_id),
    decreases ms1.len(),
{
    if ms1.len() > 0 {
        assert(ms1[0].fid == ms2[0].fid && ms1[0].m_id == ms2[0].m_id);
        assert forall|j: int|
            0 <= j < ms1.skip(1).len() implies (#[trigger] ms1.skip(1)[j]).fid == (
        #[trigger] ms2.skip(1)[j]).fid && ms1.skip(1)[j].m_id == ms2.skip(1)[j].m_id by {
            assert(ms1.skip(1)[j] == ms1[j + 1]);
            assert(ms2.skip(1)[j] == ms2[j + 1]);
        }
        lemma_member_index_same_keys(ms1.skip(1), ms2.skip(1), fid, m_id);
    }
}

/// A first member match stays where it is when a row is appended behind
/// it.
pub proof fn lemma_member_index_push(ms: Seq<MemberV>, x: MemberV, fid: i64, m_id: Seq<u8>)
    requires
        member_index(ms, fid, m_id) >= 0,
    ensures
        member_index(ms.push(x), fid, m_id) == member_index(ms, fid, m_id),
    decreases ms.len(),
{
    if ms.len() > 0 {
        if ms[0].fid == fid && ms[0].m_id == m_id {
            assert(ms.push(x)[0] == ms[0]);
        } else {
            assert(ms.push(x).skip(1) =~= ms.skip(1).push(x));
            lemma_member_index_push(ms.skip(1), x, fid, m_id);
        }
    }
}

/// One height step keeps the tables well formed: the log gains the row at
/// the group's next height and the group row records that height.
pub proof fn lemma_wf_height_step(d: DbV, fid: i64, ctype: ConsensusType, cid: i64)
    requires
        wf_db(d),
        1 <= fid <= d.groups.len(),
        d.consensus.len() < i64::MAX,
        d.groups[fid - 1].height < i64::MAX,
        cid_ok(ctype, cid, d.members.len() as int, d.messages.len() as int),
    ensures
        wf_db(
            DbV {
                groups: d.groups.update(
                    fid - 1,
                    GroupChatV {
                        height: (d.groups[fid - 1].height + 1) as i64,
                        ..d.groups[fid - 1]
                    },
                ),
                consensus: d.consensus.push(
                    Consensus {
                        id: (d.consensus.len() + 1) as i64,
                        fid,
                        height: (d.groups[fid - 1].height + 1) as i64,
                        ctype,
                        cid,
                    },
                ),
                ..d
            },
        ),
{
    let h: i64 = (d.groups[fid - 1].height + 1) as i64;
    let row = Consensus { id: (d.consensus.len() + 1) as i64, fid, height: h, ctype, cid };
    let d2 = DbV {
        groups: d.groups.update(fid - 1, GroupChatV { height: h, ..d.groups[fid - 1] }),
        consensus: d.consensus.push(row),
        ..d
    };
    assert forall|i: int| 0 <= i < d2.groups.len() implies (#[trigger] d2.groups[i]).id == i
        + 1 by {
        if i != fid - 1 {
            assert(d2.groups[i] == d.groups[i]);
        }
    }
    assert forall|i: int| 0 <= i < d2.consensus.len() implies (#[trigger] d2.consensus[i]).id == i
        + 1 by {
        if i < d.consensus.len() {
            assert(d2.consensus[i] == d.consensus[i]);
        }
    }
    assert forall|i: int, j: int| 0 <= i < j < d2.groups.len() implies (
    #[trigger] d2.groups[i]).g_id != (#[trigger] d2.groups[j]).g_id by {
        assert(d2.groups[i].g_id == d.groups[i].g_id);
        assert(d2.groups[j].g_id == d.groups[j].g_id);
    }
    assert forall|i: int, j: int| 0 <= i < j < d2.consensus.len() implies !((
    #[trigger] d2.consensus[i]).fid == (#[trigger] d2.consensus[j]).fid && d2.consensus[i].height
        == d2.consensus[j].height) by {
        if j < d.consensus.len() {
            assert(d2.consensus[i] == d.consensus[i] && d2.consensus[j] == d.consensus[j]);
        } else {
            assert(d2.consensus[i] == d.consensus[i] && d2.consensus[j] == row);
            if d.consensus[i].fid == fid {
                assert(d.consensus[i].height <= d.groups[fid - 1].height);
            }
        }
    }
    assert forall|i: int| 0 <= i < d2.consensus.len() implies {
        let c = #[trigger] d2.consensus[i];
        &&& 1 <= c.fid <= d2.groups.len()
        &&& 1 <= c.height <= d2.groups[c.fid - 1].height
        &&& cid_ok(c.ctype, c.cid, d2.members.len() as int, d2.messages.len() as int)
    } by {
        if i < d.consensus.len() {
            assert(d2.consensus[i] == d.consensus[i]);
            let c = d.consensus[i];
            if c.fid == fid {
                assert(d2.groups[c.fid - 1].height == h);
            } else {
                assert(d2.groups[c.fid - 1] == d.groups[c.fid - 1]);
            }
        } else {
            assert(d2.consensus[i] == row);
            assert(d2.groups[fid - 1].height == h);
        }
    }
    assert forall|k: int, hh: i64|
        0 <= k < d2.groups.len() && 1 <= hh <= d2.groups[k].height implies #[trigger] consensus_index(
        d2.consensus,
        (k + 1) as i64,
        hh,
    ) >= 0 by {
        if k == fid - 1 && hh == h {
            assert forall|j: int| 0 <= j < d.consensus.len() implies !((
            #[trigger] d.consensus[j]).fid == fid && d.consensus[j].height == h) by {
                if d.consensus[j].fid == fid {
                    assert(d.consensus[j].height <= d.groups[fid - 1].height);
                }
            }
            assert(d2.consensus[d.consensus.len() as int] == row);
            lemma_consensus_index_prefix(d2.consensus, fid, h, d.consensus.len() as int);
        } else {
            if k == fid - 1 {
                assert(hh <= d.groups[k].height);
            } else {
                assert(d2.groups[k] == d.groups[k]);
            }
            assert(consensus_index(d.consensus, (k + 1) as i64, hh) >= 0);
            lemma_consensus_index_push(d.consensus, row, (k + 1) as i64, hh);
        }
    }
    assert forall|k: int| 0 <= k < d2.groups.len() implies count_fid(d2.consensus, (k + 1) as i64)
        == (#[trigger] d2.groups[k]).height by {
        lemma_count_fid_push(d.consensus, row, (k + 1) as i64);
        if k == fid - 1 {
            assert(d2.groups[k].height == h);
        } else {
            assert(d2.groups[k] == d.groups[k]);
            assert((k + 1) as i64 != fid);
        }
    }
}

/// The consensus log of every group is its height, made durable: the
/// group has exactly `height` log rows, their heights are exactly
/// `1..=height` — complete, in range, and without duplicates.
pub proof fn lemma_log_matches_height(d: DbV, k: int)
    requires
        wf_db(d),
        0 <= k < d.groups.len(),
    ensures
        count_fid(d.consensus, (k + 1) as i64) == d.groups[k].height,
        forall|h: i64|
            1 <= h <= d.groups[k].height ==> #[trigger] consensus_index(
                d.consensus,
                (k + 1) as i64,
                h,
            ) >= 0,
        forall|i: int|
            0 <= i < d.consensus.len() && (#[trigger] d.consensus[i]).fid == (k + 1) as i64 ==> 1
                <= d.consensus[i].height <= d.groups[k].height,
        forall|i: int, j: int|
            0 <= i < j < d.consensus.len() && (#[trigger] d.consensus[i]).fid == (k + 1) as i64 && (
            #[trigger] d.consensus[j]).fid == (k + 1) as i64 ==> d.consensus[i].height
                != d.consensus[j].height,
{
}

/// Converts a table length to the id of the row about to be appended.
fn i64_of_len(n: usize) -> (r: i64)
    requires
        n + 1 <= i64::MAX,
    ensures
        r == n + 1,
{
    (n as i64) + 1
}

} // verus!
