//! The layer coordinator: the in-memory presence map and the protocol
//! state machine that drives admission, the consensus log and the
//! presence-aware broadcasts.
//!
//! The coordinator is the single writer of the presence map.  One inbound
//! transport message is handled at a time; the batch of outbound envelopes
//! it answers is produced in the same step that changed the state, so all
//! recipients observe log events in the order the heights were assigned.

use vstd::prelude::*;
use vstd::pervasive::VecAdditionalExecFns;

use crate::blobs::{avatar_name, blob_lookup, BlobDir, Blobs};
use crate::events::{CheckType, ConnectProof, Event, GroupInfo, GroupType, JoinProof, LayerConnect,
    LayerEvent, LayerResult, NetworkMessage, NetworkMessageV, Outbound, PackedEvent, RecvMsg};
use crate::ids::{GroupId, PeerAddr};
use crate::models::{cid_ok, count_fid, consensus_index, group_index, lemma_consensus_index,
    lemma_consensus_index_prefix, lemma_consensus_index_push, lemma_count_fid_absent,
    lemma_count_fid_le_len, lemma_count_fid_push, lemma_group_index, lemma_member_index, lemma_member_index_same_keys,
    lemma_wf_height_step, manager_index, member_index, wf_db, Consensus, ConsensusType, Db, DbV,
    GroupChat, GroupChatV, Manager, ManagerV, Member, MemberV, Message, Request, RequestV};
use crate::ServerError;

verus! {

/// One member currently online in a group.
pub struct OnlineMember {
    pub m_id: GroupId,
    pub m_addr: PeerAddr,
    pub is_manager: bool,
}

/// Mathematical shape of an online entry.
#[verifier::ext_equal]
pub struct OnlineMemberV {
    pub m_id: Seq<u8>,
    pub m_addr: Seq<u8>,
    pub is_manager: bool,
}

impl View for OnlineMember {
    type V = OnlineMemberV;

    open spec fn view(&self) -> OnlineMemberV {
        OnlineMemberV { m_id: self.m_id@, m_addr: self.m_addr@, is_manager: self.is_manager }
    }
}

/// The transient state of one group: its online roster, current height and
/// the group's row id.
pub struct PresenceGroup {
    pub gcd: GroupId,
    pub onlines: Vec<OnlineMember>,
    pub height: i64,
    pub fid: i64,
}

/// Mathematical shape of a group's transient state.
#[verifier::ext_equal]
pub struct PresenceGroupV {
    pub gcd: Seq<u8>,
    pub onlines: Seq<OnlineMemberV>,
    pub height: i64,
    pub fid: i64,
}

impl View for PresenceGroup {
    type V = PresenceGroupV;

    open spec fn view(&self) -> PresenceGroupV {
        PresenceGroupV {
            gcd: self.gcd@,
            onlines: self.onlines@.map_values(|o: OnlineMember| o@),
            height: self.height,
            fid: self.fid,
        }
    }
}

/// The layer coordinator: the presence map over all served groups.
pub struct Layer {
    pub groups: Vec<PresenceGroup>,
}

impl View for Layer {
    type V = Seq<PresenceGroupV>;

    open spec fn view(&self) -> Seq<PresenceGroupV> {
        self.groups@.map_values(|p: PresenceGroup| p@)
    }
}

/// Index of the presence entry of a group id; `-1` when the group is not
/// served.
pub open spec fn pres_index(l: Seq<PresenceGroupV>, gcd: Seq<u8>) -> int
    decreases l.len(),
{
    if l.len() == 0 {
        -1
    } else if l[0].gcd == gcd {
        0
    } else {
        let r = pres_index(l.skip(1), gcd);
        if r < 0 {
            -1
        } else {
            r + 1
        }
    }
}

/// Index of an online entry by member identity; `-1` when offline.
pub open spec fn online_index(os: Seq<OnlineMemberV>, m_id: Seq<u8>) -> int
    decreases os.len(),
{
    if os.len() == 0 {
        -1
    } else if os[0].m_id == m_id {
        0
    } else {
        let r = online_index(os.skip(1), m_id);
        if r < 0 {
            -1
        } else {
            r + 1
        }
    }
}

/// Index of the first online entry recorded at an address; `-1` when none
/// is.
pub open spec fn addr_index(os: Seq<OnlineMemberV>, addr: Seq<u8>) -> int
    decreases os.len(),
{
    if os.len() == 0 {
        -1
    } else if os[0].m_addr == addr {
        0
    } else {
        let r = addr_index(os.skip(1), addr);
        if r < 0 {
            -1
        } else {
            r + 1
        }
    }
}

/// As the table index lemmas: a found presence index is a match in range,
/// a missing one means no entry matches.
pub proof fn lemma_pres_index(l: Seq<PresenceGroupV>, gcd: Seq<u8>)
    ensures
        pres_index(l, gcd) >= 0 ==> pres_index(l, gcd) < l.len() && l[pres_index(l, gcd)].gcd
            == gcd,
        pres_index(l, gcd) < 0 ==> forall|i: int|
            0 <= i < l.len() ==> (#[trigger] l[i]).gcd != gcd,
    decreases l.len(),
{
    if l.len() > 0 && l[0].gcd != gcd {
        lemma_pres_index(l.skip(1), gcd);
        if pres_index(l.skip(1), gcd) < 0 {
            assert forall|i: int| 0 <= i < l.len() implies (#[trigger] l[i]).gcd != gcd by {
                if i > 0 {
                    assert(l.skip(1)[i - 1] == l[i]);
                }
            }
        } else {
            assert(l.skip(1)[pres_index(l.skip(1), gcd)] == l[pres_index(l, gcd)]);
        }
    }
}

/// When a forward scan stops at the first matching presence entry, that
/// position is the first-match index.
pub proof fn lemma_pres_index_prefix(l: Seq<PresenceGroupV>, gcd: Seq<u8>, i: int)
    requires
        0 <= i < l.len(),
        l[i].gcd == gcd,
        forall|j: int| 0 <= j < i ==> (#[trigger] l[j]).gcd != gcd,
    ensures
        pres_index(l, gcd) == i,
    decreases l.len(),
{
    if i > 0 {
        assert forall|j: int| 0 <= j < i - 1 implies (#[trigger] l.skip(1)[j]).gcd != gcd by {
            assert(l.skip(1)[j] == l[j + 1]);
        }
        assert(l.skip(1)[i - 1] == l[i]);
        lemma_pres_index_prefix(l.skip(1), gcd, i - 1);
    }
}

/// As `lemma_pres_index`, for online entries by identity.
pub proof fn lemma_online_index(os: Seq<OnlineMemberV>, m_id: Seq<u8>)
    ensures
        online_index(os, m_id) >= 0 ==> online_index(os, m_id) < os.len() && os[online_index(
            os,
            m_id,
        )].m_id == m_id,
        online_index(os, m_id) < 0 ==> forall|i: int|
            0 <= i < os.len() ==> (#[trigger] os[i]).m_id != m_id,
    decreases os.len(),
{
    if os.len() > 0 && os[0].m_id != m_id {
        lemma_online_index(os.skip(1), m_id);
        if online_index(os.skip(1), m_id) < 0 {
            assert forall|i: int| 0 <= i < os.len() implies (#[trigger] os[i]).m_id != m_id by {
                if i > 0 {
                    assert(os.skip(1)[i - 1] == os[i]);
                }
            }
        } else {
            assert(os.skip(1)[online_index(os.skip(1), m_id)] == os[online_index(os, m_id)]);
        }
    }
}

/// As `lemma_pres_index_prefix`, for online entries by identity.
pub proof fn lemma_online_index_prefix(os: Seq<OnlineMemberV>, m_id: Seq<u8>, i: int)
    requires
        0 <= i < os.len(),
        os[i].m_id == m_id,
        forall|j: int| 0 <= j < i ==> (#[trigger] os[j]).m_id != m_id,
    ensures
        online_index(os, m_id) == i,
    decreases os.len(),
{
    if i > 0 {
        assert forall|j: int| 0 <= j < i - 1 implies (#[trigger] os.skip(1)[j]).m_id != m_id by {
            assert(os.skip(1)[j] == os[j + 1]);
        }
        assert(os.skip(1)[i - 1] == os[i]);
        lemma_online_index_prefix(os.skip(1), m_id, i - 1);
    }
}

/// As `lemma_pres_index`, for online entries by address.
pub proof fn lemma_addr_index(os: Seq<OnlineMemberV>, addr: Seq<u8>)
    ensures
        addr_index(os, addr) >= 0 ==> addr_index(os, addr) < os.len() && os[addr_index(
            os,
            addr,
        )].m_addr == addr,
        addr_index(os, addr) < 0 ==> forall|i: int|
            0 <= i < os.len() ==> (#[trigger] os[i]).m_addr != addr,
    decreases os.len(),
{
    if os.len() > 0 && os[0].m_addr != addr {
        lemma_addr_index(os.skip(1), addr);
        if addr_index(os.skip(1), addr) < 0 {
            assert forall|i: int| 0 <= i < os.len() implies (#[trigger] os[i]).m_addr != addr by {
                if i > 0 {
                    assert(os.skip(1)[i - 1] == os[i]);
                }
            }
        } else {
            assert(os.skip(1)[addr_index(os.skip(1), addr)] == os[addr_index(os, addr)]);
        }
    }
}

/// As `lemma_pres_index_prefix`, for online entries by address.
pub proof fn lemma_addr_index_prefix(os: Seq<OnlineMemberV>, addr: Seq<u8>, i: int)
    requires
        0 <= i < os.len(),
        os[i].m_addr == addr,
        forall|j: int| 0 <= j < i ==> (#[trigger] os[j]).m_addr != addr,
    ensures
        addr_index(os, addr) == i,
    decreases os.len(),
{
    if i > 0 {
        assert forall|j: int| 0 <= j < i - 1 implies (#[trigger] os.skip(1)[j]).m_addr != addr by {
            assert(os.skip(1)[j] == os[j + 1]);
        }
        assert(os.skip(1)[i - 1] == os[i]);
        lemma_addr_index_prefix(os.skip(1), addr, i - 1);
    }
}

/// Well-formedness of the presence map on its own: one entry per group,
/// one online entry per member.
pub open spec fn wf_presence(l: Seq<PresenceGroupV>) -> bool {
    &&& forall|i: int, j: int|
        0 <= i < j < l.len() ==> (#[trigger] l[i]).gcd != (#[trigger] l[j]).gcd
    &&& forall|k: int, i: int, j: int|
        0 <= k < l.len() && 0 <= i < j < (#[trigger] l[k]).onlines.len() ==> (
        #[trigger] l[k].onlines[i]).m_id != (#[trigger] l[k].onlines[j]).m_id
}

/// The presence map agrees with the durable tables: every served group is
/// a live group row with the same height, and every online member has a
/// live member row.
pub open spec fn wf_state(l: Seq<PresenceGroupV>, d: DbV) -> bool {
    &&& wf_db(d)
    &&& wf_presence(l)
    &&& forall|k: int|
        0 <= k < l.len() ==> {
            let p = #[trigger] l[k];
            &&& 1 <= p.fid <= d.groups.len()
            &&& d.groups[p.fid - 1].g_id == p.gcd
            &&& d.groups[p.fid - 1].height == p.height
        }
    &&& forall|k: int, i: int|
        0 <= k < l.len() && 0 <= i < (#[trigger] l[k]).onlines.len() ==> {
            let mi = member_index(d.members, l[k].fid, (#[trigger] l[k].onlines[i]).m_id);
            mi >= 0 && !d.members[mi].is_deleted
        }
}

/// Room left in the tables for the rows one handled message may add.
pub open spec fn db_has_room(d: DbV) -> bool {
    &&& d.managers.len() + 8 < i64::MAX
    &&& d.groups.len() + 8 < i64::MAX
    &&& d.members.len() + 8 < i64::MAX
    &&& d.requests.len() + 8 < i64::MAX
    &&& d.messages.len() + 8 < i64::MAX
    &&& d.consensus.len() + 8 < i64::MAX
}

/// Whether a recipient list names exactly the given roster, in order.
pub open spec fn recips_match(rs: Seq<(GroupId, PeerAddr)>, os: Seq<OnlineMemberV>) -> bool {
    &&& rs.len() == os.len()
    &&& forall|i: int|
        0 <= i < rs.len() ==> (#[trigger] rs[i]).0@ == os[i].m_id && rs[i].1@ == os[i].m_addr
}

/// Whether a recipient list names exactly the managers of the roster, in
/// order.
pub open spec fn manager_recips_match(rs: Seq<(GroupId, PeerAddr)>, os: Seq<OnlineMemberV>) -> bool {
    recips_match(rs, os.filter(|o: OnlineMemberV| o.is_manager))
}

/// The presence map a load builds: one entry per live group row, roster
/// empty, height and row id from the row; soft-deleted rows are skipped.
pub open spec fn loaded_presence(gs: Seq<GroupChatV>) -> Seq<PresenceGroupV>
    decreases gs.len(),
{
    if gs.len() == 0 {
        Seq::empty()
    } else {
        let rest = loaded_presence(gs.drop_last());
        if gs.last().is_deleted {
            rest
        } else {
            rest.push(
                PresenceGroupV {
                    gcd: gs.last().g_id,
                    onlines: Seq::<OnlineMemberV>::empty(),
                    height: gs.last().height,
                    fid: gs.last().id,
                },
            )
        }
    }
}

/// Every loaded entry mirrors the live row it came from, with an empty
/// roster, and the entries keep the rows' order.
proof fn lemma_loaded_presence(gs: Seq<GroupChatV>)
    requires
        forall|i: int| 0 <= i < gs.len() ==> (#[trigger] gs[i]).id == i + 1,
    ensures
        forall|k: int|
            0 <= k < loaded_presence(gs).len() ==> {
                let p = #[trigger] loaded_presence(gs)[k];
                &&& 1 <= p.fid <= gs.len()
                &&& gs[p.fid - 1].g_id == p.gcd
                &&& gs[p.fid - 1].height == p.height
                &&& !gs[p.fid - 1].is_deleted
                &&& p.onlines.len() == 0
            },
        forall|a: int, b: int|
            0 <= a < b < loaded_presence(gs).len() ==> (#[trigger] loaded_presence(gs)[a]).fid < (
            #[trigger] loaded_presence(gs)[b]).fid,
    decreases gs.len(),
{
    if gs.len() > 0 {
        let prefix = gs.drop_last();
        lemma_loaded_presence(prefix);
        let rest = loaded_presence(prefix);
        assert forall|k: int| 0 <= k < rest.len() implies (#[trigger] rest[k]).fid
            <= prefix.len() by {}
        if !gs.last().is_deleted {
            assert(gs.last().id == gs.len());
            assert forall|k: int| 0 <= k < loaded_presence(gs).len() implies {
                let p = #[trigger] loaded_presence(gs)[k];
                &&& 1 <= p.fid <= gs.len()
                &&& gs[p.fid - 1].g_id == p.gcd
                &&& gs[p.fid - 1].height == p.height
                &&& !gs[p.fid - 1].is_deleted
                &&& p.onlines.len() == 0
            } by {
                if k < rest.len() {
                    assert(loaded_presence(gs)[k] == rest[k]);
                    assert(gs[rest[k].fid - 1] == prefix[rest[k].fid - 1]);
                } else {
                    assert(gs[gs.len() - 1] == gs.last());
                }
            }
        } else {
            assert forall|k: int| 0 <= k < loaded_presence(gs).len() implies {
                let p = #[trigger] loaded_presence(gs)[k];
                &&& 1 <= p.fid <= gs.len()
                &&& gs[p.fid - 1].g_id == p.gcd
                &&& gs[p.fid - 1].height == p.height
                &&& !gs[p.fid - 1].is_deleted
                &&& p.onlines.len() == 0
            } by {
                assert(loaded_presence(gs)[k] == rest[k]);
                assert(gs[rest[k].fid - 1] == prefix[rest[k].fid - 1]);
            }
        }
    }
}

impl Layer {
    /// Loads the presence map from the durable tables: one entry per live
    /// group row, roster empty, height and row id from the row.  The load
    /// only reads the tables, so membership and the log survive a restart
    /// untouched.
    #[verifier::loop_isolation(false)]
    pub fn new(db: &Db) -> (r: Layer)
        requires
            wf_db(db@),
        ensures
            wf_state(r@, db@),
            r@ == loaded_presence(db@.groups),
    {
        let mut groups: Vec<PresenceGroup> = Vec::new();
        let n: usize = db.groups.len();
        let mut i: usize = 0;
        proof {
            assert(db@.groups.take(0) =~= Seq::<GroupChatV>::empty());
            assert(groups@.map_values(|p: PresenceGroup| p@) =~= loaded_presence(
                db@.groups.take(0),
            ));
        }
        while i < n
            invariant
                i <= n,
                groups@.map_values(|p: PresenceGroup| p@) == loaded_presence(
                    db@.groups.take(i as int),
                ),
            decreases n - i,
        {
            proof {
                assert(db@.groups.take(i as int + 1).drop_last() =~= db@.groups.take(i as int));
                assert(db@.groups.take(i as int + 1).last() == db@.groups[i as int]);
            }
            let g = &db.groups[i];
            if !g.is_deleted {
                let entry = PresenceGroup {
                    gcd: g.g_id.duplicate(),
                    onlines: Vec::new(),
                    height: g.height,
                    fid: g.id,
                };
                proof {
                    assert(entry@.onlines =~= Seq::<OnlineMemberV>::empty());
                }
                groups.push(entry);
                proof {
                    assert(groups@.map_values(|p: PresenceGroup| p@) =~= loaded_presence(
                        db@.groups.take(i as int + 1),
                    ));
                }
            } else {
                proof {
                    assert(groups@.map_values(|p: PresenceGroup| p@) =~= loaded_presence(
                        db@.groups.take(i as int + 1),
                    ));
                }
            }
            i += 1;
        }
        let layer = Layer { groups };
        proof {
            assert(db@.groups.take(n as int) =~= db@.groups);
            lemma_loaded_presence(db@.groups);
            assert forall|k: int, j: int| 0 <= k < j < layer@.len() implies (
            #[trigger] layer@[k]).gcd != (#[trigger] layer@[j]).gcd by {
                assert(layer@[k].fid < layer@[j].fid);
                assert(db@.groups[layer@[k].fid - 1].g_id == layer@[k].gcd);
                assert(db@.groups[layer@[j].fid - 1].g_id == layer@[j].gcd);
            }
        }
        layer
    }

    /// Finds the presence entry of a group.
    #[verifier::loop_isolation(false)]
    fn find_group(&self, gcd: &GroupId) -> (r: Option<usize>)
        ensures
            match r {
                Some(i) => pres_index(self@, gcd@) == i && i < self@.len(),
                None => pres_index(self@, gcd@) < 0,
            },
    {
        let n: usize = self.groups.len();
        let mut i: usize = 0;
        while i < n
            invariant
                i <= n,
                forall|j: int| 0 <= j < i ==> (#[trigger] self@[j]).gcd != gcd@,
            decreases n - i,
        {
            if self.groups[i].gcd.eq_id(gcd) {
                proof {
                    lemma_pres_index_prefix(self@, gcd@, i as int);
                }
                return Some(i);
            }
            i += 1;
        }
        proof {
            lemma_pres_index(self@, gcd@);
        }
        Option::None
    }

    /// The row id of a served group.
    pub fn fid(&self, gid: &GroupId) -> (r: Result<i64, ServerError>)
        ensures
            ({
                let pi = pres_index(self@, gid@);
                match r {
                    Ok(f) => pi >= 0 && f == self@[pi].fid,
                    Err(e) => pi < 0 && e == ServerError::NotFound,
                }
            }),
    {
        match self.find_group(gid) {
            Some(i) => Ok(self.groups[i].fid),
            Option::None => Err(ServerError::NotFound),
        }
    }

    /// The current height of a served group.
    pub fn height(&self, gid: &GroupId) -> (r: Result<i64, ServerError>)
        ensures
            ({
                let pi = pres_index(self@, gid@);
                match r {
                    Ok(h) => pi >= 0 && h == self@[pi].height,
                    Err(e) => pi < 0 && e == ServerError::NotFound,
                }
            }),
    {
        match self.find_group(gid) {
            Some(i) => Ok(self.groups[i].height),
            Option::None => Err(ServerError::NotFound),
        }
    }

    /// Height and row id of a served group, together.
    pub fn height_and_fid(&self, gid: &GroupId) -> (r: Result<(i64, i64), ServerError>)
        ensures
            ({
                let pi = pres_index(self@, gid@);
                match r {
                    Ok(p) => pi >= 0 && p.0 == self@[pi].height && p.1 == self@[pi].fid,
                    Err(e) => pi < 0 && e == ServerError::NotFound,
                }
            }),
    {
        match self.find_group(gid) {
            Some(i) => Ok((self.groups[i].height, self.groups[i].fid)),
            Option::None => Err(ServerError::NotFound),
        }
    }

    /// Whether a member is currently online in a group.
    #[verifier::loop_isolation(false)]
    pub fn is_online_member(&self, gid: &GroupId, mid: &GroupId) -> (r: bool)
        ensures
            r == ({
                let pi = pres_index(self@, gid@);
                pi >= 0 && online_index(self@[pi].onlines, mid@) >= 0
            }),
    {
        let gi = match self.find_group(gid) {
            Some(i) => i,
            Option::None => {
                return false;
            },
        };
        let os = &self.groups[gi].onlines;
        let n: usize = os.len();
        let mut i: usize = 0;
        while i < n
            invariant
                i <= n,
                n == os@.len(),
                os == self.groups@[gi as int].onlines,
                gi < self@.len(),
                forall|j: int| 0 <= j < i ==> (#[trigger] self@[gi as int].onlines[j]).m_id != mid@,
            decreases n - i,
        {
            if os[i].m_id.eq_id(mid) {
                proof {
                    lemma_online_index_prefix(self@[gi as int].onlines, mid@, i as int);
                }
                return true;
            }
            i += 1;
        }
        proof {
            lemma_online_index(self@[gi as int].onlines, mid@);
        }
        false
    }

    /// Marks a member online in a group: a member already online gets its
    /// address updated in place, anyone else is appended without the
    /// manager flag.  An unserved group changes nothing.
    #[verifier::loop_isolation(false)]
    pub fn add_member(&mut self, gid: &GroupId, rid: GroupId, raddr: PeerAddr) -> (r: ())
        requires
            wf_presence(old(self)@),
        ensures
            wf_presence(final(self)@),
            ({
                let pi = pres_index(old(self)@, gid@);
                if pi < 0 {
                    final(self)@ == old(self)@
                } else {
                    let os = old(self)@[pi].onlines;
                    let oi = online_index(os, rid@);
                    if oi >= 0 {
                        final(self)@ == old(self)@.update(
                            pi,
                            PresenceGroupV {
                                onlines: os.update(
                                    oi,
                                    OnlineMemberV { m_addr: raddr@, ..os[oi] },
                                ),
                                ..old(self)@[pi]
                            },
                        )
                    } else {
                        final(self)@ == old(self)@.update(
                            pi,
                            PresenceGroupV {
                                onlines: os.push(
                                    OnlineMemberV {
                                        m_id: rid@,
                                        m_addr: raddr@,
                                        is_manager: false,
                                    },
                                ),
                                ..old(self)@[pi]
                            },
                        )
                    }
                }
            }),
    {
        let gi = match self.find_group(gid) {
            Some(i) => i,
            Option::None => {
                return ;
            },
        };
        let ghost pre = self@;
        let ghost os = self@[gi as int].onlines;
        let mut pg = self.groups.remove(gi);
        proof {
            assert(self@ =~= pre.remove(gi as int));
        }
        let n: usize = pg.onlines.len();
        let mut i: usize = 0;
        while i < n
            invariant
                i <= n,
                n == pg.onlines@.len(),
                pg@.onlines == os,
                pg@.gcd == pre[gi as int].gcd,
                pg@.height == pre[gi as int].height,
                pg@.fid == pre[gi as int].fid,
                gi < pre.len(),
                self@ == pre.remove(gi as int),
                forall|j: int| 0 <= j < i ==> (#[trigger] os[j]).m_id != rid@,
            decreases n - i,
        {
            if pg.onlines[i].m_id.eq_id(&rid) {
                proof {
                    lemma_online_index_prefix(os, rid@, i as int);
                }
                let entry = OnlineMember {
                    m_id: pg.onlines[i].m_id.duplicate(),
                    m_addr: raddr,
                    is_manager: pg.onlines[i].is_manager,
                };
                pg.onlines.set(i, entry);
                proof {
                    assert(pg@.onlines =~= os.update(
                        i as int,
                        OnlineMemberV { m_addr: raddr@, ..os[i as int] },
                    ));
                }
                let ghost vecpre = self.groups@;
                let ghost pgg = pg;
                self.groups.insert(gi, pg);
                proof {
                    vecpre.insert_ensures(gi as int, pgg);
                    assert(self.groups@ == vecpre.insert(gi as int, pgg));
                    assert(self.groups@[gi as int] == pgg);
                    assert(self@[gi as int] == pgg@);
                    assert forall|k: int|
                        0 <= k < self@.len() && k != gi as int implies self@[k] == pre[k] by {
                        if k < gi as int {
                            assert(self.groups@[k] == vecpre[k]);
                            assert(vecpre[k]@ == pre.remove(gi as int)[k]);
                        } else {
                            assert(self.groups@[k] == vecpre[k - 1]);
                            assert(vecpre[k - 1]@ == pre.remove(gi as int)[k - 1]);
                        }
                    }
                    assert(pgg@ =~= (PresenceGroupV {
                        onlines: os.update(
                            i as int,
                            OnlineMemberV { m_addr: raddr@, ..os[i as int] },
                        ),
                        ..pre[gi as int]
                    }));
                    assert(self@ =~~= pre.update(
                        gi as int,
                        PresenceGroupV {
                            onlines: os.update(
                                i as int,
                                OnlineMemberV { m_addr: raddr@, ..os[i as int] },
                            ),
                            ..pre[gi as int]
                        },
                    ));
                    lemma_presence_roster_update(
                        pre,
                        gi as int,
                        os.update(i as int, OnlineMemberV { m_addr: raddr@, ..os[i as int] }),
                    );
                }
                return ;
            }
            i += 1;
        }
        proof {
            lemma_online_index(os, rid@);
        }
        pg.onlines.push(OnlineMember { m_id: rid, m_addr: raddr, is_manager: false });
        proof {
            assert(pg@.onlines =~= os.push(
                OnlineMemberV { m_id: rid@, m_addr: raddr@, is_manager: false },
            ));
        }
        let ghost vecpre = self.groups@;
        let ghost pgg = pg;
        self.groups.insert(gi, pg);
        proof {
            vecpre.insert_ensures(gi as int, pgg);
            assert(self.groups@ == vecpre.insert(gi as int, pgg));
            assert(self@.len() == pre.len());
            assert(self.groups@[gi as int] == pgg);
            assert(self@[gi as int] == pgg@);
            assert(pgg@.onlines == os.push(
                OnlineMemberV { m_id: rid@, m_addr: raddr@, is_manager: false },
            ));
            assert(pgg@ =~= (PresenceGroupV {
                onlines: os.push(OnlineMemberV { m_id: rid@, m_addr: raddr@, is_manager: false }),
                ..pre[gi as int]
            }));
            assert forall|k: int| 0 <= k < self@.len() && k != gi as int implies self@[k] == pre[k] by {
                if k < gi as int {
                    assert(self.groups@[k] == vecpre[k]);
                    assert(vecpre[k]@ == pre.remove(gi as int)[k]);
                } else {
                    assert(self.groups@[k] == vecpre[k - 1]);
                    assert(vecpre[k - 1]@ == pre.remove(gi as int)[k - 1]);
                }
            }
            assert(self@ =~~= pre.update(
                gi as int,
                PresenceGroupV {
                    onlines: os.push(
                        OnlineMemberV { m_id: rid@, m_addr: raddr@, is_manager: false },
                    ),
                    ..pre[gi as int]
                },
            ));
            lemma_presence_roster_update(
                pre,
                gi as int,
                os.push(OnlineMemberV { m_id: rid@, m_addr: raddr@, is_manager: false }),
            );
        }
    }

    /// Removes a member from a group's roster, if it is there.
    #[verifier::loop_isolation(false)]
    pub fn del_member(&mut self, gid: &GroupId, rid: &GroupId) -> (r: ())
        requires
            wf_presence(old(self)@),
        ensures
            wf_presence(final(self)@),
            ({
                let pi = pres_index(old(self)@, gid@);
                if pi < 0 {
                    final(self)@ == old(self)@
                } else {
                    let os = old(self)@[pi].onlines;
                    let oi = online_index(os, rid@);
                    if oi >= 0 {
                        final(self)@ == old(self)@.update(
                            pi,
                            PresenceGroupV { onlines: os.remove(oi), ..old(self)@[pi] },
                        )
                    } else {
                        final(self)@ == old(self)@
                    }
                }
            }),
    {
        let gi = match self.find_group(gid) {
            Some(i) => i,
            Option::None => {
                return ;
            },
        };
        let ghost pre = self@;
        let ghost os = self@[gi as int].onlines;
        let mut pg = self.groups.remove(gi);
        proof {
            assert(self@ =~= pre.remove(gi as int));
        }
        let n: usize = pg.onlines.len();
        let mut i: usize = 0;
        while i < n
            invariant
                i <= n,
                n == pg.onlines@.len(),
                pg@.onlines == os,
                pg@.gcd == pre[gi as int].gcd,
                pg@.height == pre[gi as int].height,
                pg@.fid == pre[gi as int].fid,
                gi < pre.len(),
                self@ == pre.remove(gi as int),
                forall|j: int| 0 <= j < i ==> (#[trigger] os[j]).m_id != rid@,
            decreases n - i,
        {
            if pg.onlines[i].m_id.eq_id(rid) {
                proof {
                    lemma_online_index_prefix(os, rid@, i as int);
                }
                pg.onlines.remove(i);
                proof {
                    assert(pg@.onlines =~= os.remove(i as int));
                }
                let ghost vecpre = self.groups@;
                let ghost pgg = pg;
                self.groups.insert(gi, pg);
                proof {
                    vecpre.insert_ensures(gi as int, pgg);
                    assert(self.groups@ == vecpre.insert(gi as int, pgg));
                    assert(self.groups@[gi as int] == pgg);
                    assert(self@[gi as int] == pgg@);
                    assert forall|k: int|
                        0 <= k < self@.len() && k != gi as int implies self@[k] == pre[k] by {
                        if k < gi as int {
                            assert(self.groups@[k] == vecpre[k]);
                            assert(vecpre[k]@ == pre.remove(gi as int)[k]);
                        } else {
                            assert(self.groups@[k] == vecpre[k - 1]);
                            assert(vecpre[k - 1]@ == pre.remove(gi as int)[k - 1]);
                        }
                    }
                    assert(pgg@ =~= (PresenceGroupV {
                        onlines: os.remove(i as int),
                        ..pre[gi as int]
                    }));
                    assert(self@ =~~= pre.update(
                        gi as int,
                        PresenceGroupV { onlines: os.remove(i as int), ..pre[gi as int] },
                    ));
                    lemma_presence_roster_update(pre, gi as int, os.remove(i as int));
                }
                return ;
            }
            i += 1;
        }
        proof {
            lemma_online_index(os, rid@);
        }
        let ghost vecpre = self.groups@;
        let ghost pgg = pg;
        self.groups.insert(gi, pg);
        proof {
            vecpre.insert_ensures(gi as int, pgg);
            assert(self.groups@ == vecpre.insert(gi as int, pgg));
            assert(self.groups@[gi as int] == pgg);
            assert(self@[gi as int] == pgg@);
            assert forall|k: int|
                0 <= k < self@.len() && k != gi as int implies self@[k] == pre[k] by {
                if k < gi as int {
                    assert(self.groups@[k] == vecpre[k]);
                    assert(vecpre[k]@ == pre.remove(gi as int)[k]);
                } else {
                    assert(self.groups@[k] == vecpre[k - 1]);
                    assert(vecpre[k - 1]@ == pre.remove(gi as int)[k - 1]);
                }
            }
            assert(pgg@ =~= pre[gi as int]);
            assert(self@ =~~= pre);
        }
    }

    /// Installs a freshly created group in the presence map, its creator
    /// online and flagged as manager, at height zero.
    pub fn create_group(&mut self, id: i64, gid: GroupId, rid: GroupId, raddr: PeerAddr) -> (r: ())
        requires
            wf_presence(old(self)@),
            pres_index(old(self)@, gid@) < 0,
        ensures
            wf_presence(final(self)@),
            final(self)@ == old(self)@.push(
                PresenceGroupV {
                    gcd: gid@,
                    onlines: seq![
                        OnlineMemberV { m_id: rid@, m_addr: raddr@, is_manager: true },
                    ],
                    height: 0,
                    fid: id,
                },
            ),
    {
        proof {
            lemma_pres_index(self@, gid@);
        }
        let mut onlines: Vec<OnlineMember> = Vec::new();
        onlines.push(OnlineMember { m_id: rid, m_addr: raddr, is_manager: true });
        let entry = PresenceGroup { gcd: gid, onlines, height: 0, fid: id };
        let ghost ev = entry@;
        self.groups.push(entry);
        proof {
            assert(ev.onlines =~= seq![
                OnlineMemberV { m_id: ev.onlines[0].m_id, m_addr: ev.onlines[0].m_addr, is_manager: true },
            ]);
            assert(self@ =~= old(self)@.push(ev));
            assert forall|k: int, j: int| 0 <= k < j < self@.len() implies (
            #[trigger] self@[k]).gcd != (#[trigger] self@[j]).gcd by {
                if j == self@.len() - 1 {
                    assert(self@[k] == old(self)@[k]);
                }
            }
        }
    }

    /// One height step for a served group: appends the log row at the next
    /// height, records the new height on the group row and in the presence
    /// map, and answers the height.  The log row and the group row change
    /// in the same step, so the log stays contiguous.
    pub fn add_height(&mut self, db: &mut Db, gid: &GroupId, cid: i64, ctype: ConsensusType) -> (r:
        Result<i64, ServerError>)
        requires
            wf_state(old(self)@, old(db)@),
            old(db)@.consensus.len() + 1 < i64::MAX,
            cid_ok(ctype, cid, old(db)@.members.len() as int, old(db)@.messages.len() as int),
        ensures
            wf_state(final(self)@, final(db)@),
            ({
                let pi = pres_index(old(self)@, gid@);
                match r {
                    Err(e) => {
                        &&& pi < 0
                        &&& e == ServerError::NotFound
                        &&& final(self)@ == old(self)@
                        &&& final(db)@ == old(db)@
                    },
                    Ok(h) => {
                        let fid = old(self)@[pi].fid;
                        &&& pi >= 0
                        &&& h == old(self)@[pi].height + 1
                        &&& final(self)@ == old(self)@.update(
                            pi,
                            PresenceGroupV { height: h, ..old(self)@[pi] },
                        )
                        &&& final(db)@ == (DbV {
                            groups: old(db)@.groups.update(
                                fid - 1,
                                GroupChatV { height: h, ..old(db)@.groups[fid - 1] },
                            ),
                            consensus: old(db)@.consensus.push(
                                Consensus {
                                    id: (old(db)@.consensus.len() + 1) as i64,
                                    fid,
                                    height: h,
                                    ctype,
                                    cid,
                                },
                            ),
                            ..old(db)@
                        })
                    },
                }
            }),
    {
        let gi = match self.find_group(gid) {
            Some(i) => i,
            Option::None => {
                return Err(ServerError::NotFound);
            },
        };
        let fid: i64 = self.groups[gi].fid;
        let h0: i64 = self.groups[gi].height;
        proof {
            assert(self@[gi as int].fid == fid && self@[gi as int].height == h0);
            assert(db@.groups[fid - 1].height == h0);
            lemma_count_fid_le_len(db@.consensus, fid);
            assert(h0 < i64::MAX);
            // No log row sits at the next height yet.
            lemma_consensus_index(db@.consensus, fid, (h0 + 1) as i64);
            if consensus_index(db@.consensus, fid, (h0 + 1) as i64) >= 0 {
                let ci = consensus_index(db@.consensus, fid, (h0 + 1) as i64);
                assert(db@.consensus[ci].height <= db@.groups[fid - 1].height);
                assert(false);
            }
        }
        let h: i64 = h0 + 1;
        let ghost pre_l = self@;
        let ghost pre_d = db@;
        Consensus::insert(db, fid, h, cid, ctype);
        proof {
            assert(db@.consensus =~= pre_d.consensus.push(
                Consensus { id: (pre_d.consensus.len() + 1) as i64, fid, height: h, ctype, cid },
            ));
        }
        GroupChat::add_height(db, fid, h);
        proof {
            assert(db@ =~= (DbV {
                groups: pre_d.groups.update(
                    fid - 1,
                    GroupChatV { height: h, ..pre_d.groups[fid - 1] },
                ),
                consensus: pre_d.consensus.push(
                    Consensus {
                        id: (pre_d.consensus.len() + 1) as i64,
                        fid,
                        height: h,
                        ctype,
                        cid,
                    },
                ),
                ..pre_d
            }));
            lemma_wf_height_step(pre_d, fid, ctype, cid);
        }
        let mut pg = self.groups.remove(gi);
        pg.height = h;
        proof {
            assert(self@ =~= pre_l.remove(gi as int));
        }
        let ghost vecpre = self.groups@;
        let ghost pgg = pg;
        self.groups.insert(gi, pg);
        proof {
            vecpre.insert_ensures(gi as int, pgg);
            assert(self.groups@[gi as int] == pgg);
            assert(self@[gi as int] == pgg@);
            assert forall|k: int|
                0 <= k < self@.len() && k != gi as int implies self@[k] == pre_l[k] by {
                if k < gi as int {
                    assert(self.groups@[k] == vecpre[k]);
                    assert(vecpre[k]@ == pre_l.remove(gi as int)[k]);
                } else {
                    assert(self.groups@[k] == vecpre[k - 1]);
                    assert(vecpre[k - 1]@ == pre_l.remove(gi as int)[k - 1]);
                }
            }
            assert(pgg@ =~= (PresenceGroupV { height: h, ..pre_l[gi as int] }));
            assert(self@ =~~= pre_l.update(
                gi as int,
                PresenceGroupV { height: h, ..pre_l[gi as int] },
            ));
            // The presence map still mirrors the group rows: only the one
            // served group changed, and no other presence entry shares its
            // row.
            lemma_state_height_step(pre_l, pre_d, gi as int, fid, h, db@, self@);
        }
        Ok(h)
    }

    /// Handles `Offline`: drops an online sender from the roster and tells
    /// the remaining roster.
    fn handle_offline(&mut self, gid: &GroupId, gcd: &GroupId, out: &mut Vec<Outbound>) -> (r: ())
        requires
            wf_presence(old(self)@),
            old(out)@.len() == 0,
        ensures
            wf_presence(final(self)@),
            offline_post(old(self)@, gid@, gcd@, final(self)@, final(out)@),
    {
        if !self.is_online_member(gcd, gid) {
            proof {
                lemma_pres_index(self@, gcd@);
            }
            return ;
        }
        let ghost pre = self@;
        let ghost pi = pres_index(pre, gcd@);
        let ghost oi = online_index(pre[pi].onlines, gid@);
        proof {
            lemma_pres_index(pre, gcd@);
            lemma_online_index(pre[pi].onlines, gid@);
        }
        self.del_member(gcd, gid);
        let ghost os2 = pre[pi].onlines.remove(oi);
        proof {
            assert(self@ == pre.update(pi, PresenceGroupV { onlines: os2, ..pre[pi] }));
            lemma_pres_index_same_gcds(pre, self@, gcd@);
            assert(pres_index(self@, gcd@) == pi);
        }
        let recips = match self.groups(gcd) {
            Ok(os) => recipients_of(os),
            Err(_) => {
                proof {
                    assert(false);
                }
                Vec::new()
            },
        };
        proof {
            assert(self@[pi].onlines == os2);
        }
        out.push(Outbound::Event(recips, LayerEvent::MemberOffline(gcd.duplicate(), gid.duplicate())));
    }

    /// Handles `Check`: answers the creation-permission verdict.
    fn handle_check(&self, db: &Db, gid: &GroupId, addr: &PeerAddr, out: &mut Vec<Outbound>) -> (r:
        ())
        requires
            old(out)@.len() == 0,
        ensures
            check_post(db@, gid@, addr@, final(out)@),
    {
        let (t, remain): (CheckType, i64) = match Manager::get(db, gid) {
            Ok(m) => {
                if m.is_closed {
                    (CheckType::Suspend, m.times as i64)
                } else if m.times > 0 {
                    (CheckType::Allow, m.times as i64)
                } else {
                    (CheckType::Exhausted, 0)
                }
            },
            Err(_) => {
                if crate::PERMISSIONLESS {
                    (CheckType::Allow, crate::DEFAULT_REMAIN as i64)
                } else {
                    (CheckType::Deny, 0)
                }
            },
        };
        let mut supported: Vec<GroupType> = Vec::new();
        supported.push(GroupType::Encrypted);
        supported.push(GroupType::Private);
        supported.push(GroupType::Open);
        proof {
            assert(supported@ =~= supported_kinds());
        }
        let mut recips: Vec<(GroupId, PeerAddr)> = Vec::new();
        recips.push((gid.duplicate(), addr.duplicate()));
        let name = String::from_str(crate::NAME);
        out.push(
            Outbound::Event(recips, LayerEvent::CheckResult(t, name, remain, supported)),
        );
    }

    /// Handles `MemberOnlineSync`: answers the roster to an online sender.
    fn handle_member_online_sync(
        &self,
        gid: &GroupId,
        addr: &PeerAddr,
        gcd: &GroupId,
        out: &mut Vec<Outbound>,
    ) -> (r: ())
        requires
            old(out)@.len() == 0,
        ensures
            member_online_sync_post(self@, gid@, addr@, gcd@, final(out)@),
    {
        if !self.is_online_member(gcd, gid) {
            return ;
        }
        let pairs = match self.onlines(gcd) {
            Ok(p) => p,
            Err(_) => {
                proof {
                    assert(false);
                }
                Vec::new()
            },
        };
        let mut recips: Vec<(GroupId, PeerAddr)> = Vec::new();
        recips.push((gid.duplicate(), addr.duplicate()));
        out.push(
            Outbound::Event(
                recips,
                LayerEvent::MemberOnlineSyncResult(gcd.duplicate(), pairs),
            ),
        );
    }

    /// Handles a `Connect` with a common credential.
    fn handle_connect(
        &mut self,
        db: &Db,
        gid: &GroupId,
        addr: PeerAddr,
        gcd: &GroupId,
        out: &mut Vec<Outbound>,
    ) -> (r: ())
        requires
            wf_state(old(self)@, db@),
            old(out)@.len() == 0,
        ensures
            wf_state(final(self)@, db@),
            connect_post(old(self)@, db@, gid@, addr@, gcd@, final(self)@, final(out)@),
    {
        let (height, fid): (i64, i64) = match self.height_and_fid(gcd) {
            Ok(p) => p,
            Err(_) => {
                out.push(Outbound::Result(gid.duplicate(), addr, false, Option::None));
                return ;
            },
        };
        proof {
            lemma_pres_index(self@, gcd@);
            lemma_member_index(db@.members, fid, gid@);
        }
        if Member::exist(db, fid, gid) {
            let ghost pre = self@;
            let ghost pi = pres_index(pre, gcd@);
            self.add_member(gcd, gid.duplicate(), addr.duplicate());
            proof {
                let os = pre[pi].onlines;
                let oi = online_index(os, gid@);
                let os2 = if oi >= 0 {
                    os.update(oi, OnlineMemberV { m_addr: addr@, ..os[oi] })
                } else {
                    os.push(OnlineMemberV { m_id: gid@, m_addr: addr@, is_manager: false })
                };
                lemma_online_index(os, gid@);
                assert(self@ == pre.update(pi, PresenceGroupV { onlines: os2, ..pre[pi] }));
                assert forall|i: int| 0 <= i < os2.len() implies {
                    let mi = member_index(db@.members, pre[pi].fid, (#[trigger] os2[i]).m_id);
                    mi >= 0 && !db@.members[mi].is_deleted
                } by {
                    if oi >= 0 {
                        assert(os2[i].m_id == os[i].m_id);
                    } else {
                        if i < os.len() {
                            assert(os2[i].m_id == os[i].m_id);
                        } else {
                            assert(os2[i].m_id == gid@);
                        }
                    }
                }
                assert forall|i: int, j: int| 0 <= i < j < os2.len() implies (
                #[trigger] os2[i]).m_id != (#[trigger] os2[j]).m_id by {
                    if oi >= 0 {
                        assert(os2[i].m_id == os[i].m_id && os2[j].m_id == os[j].m_id);
                    } else {
                        if j < os.len() {
                            assert(os2[i].m_id == os[i].m_id && os2[j].m_id == os[j].m_id);
                        } else {
                            assert(os2[i].m_id == os[i].m_id && os2[j].m_id == gid@);
                        }
                    }
                }
                lemma_state_roster_change(pre, db@, pi, os2);
                lemma_pres_index_same_gcds(pre, self@, gcd@);
            }
            out.push(
                Outbound::Result(
                    gid.duplicate(),
                    addr.duplicate(),
                    true,
                    Some(LayerResult(gcd.duplicate(), height)),
                ),
            );
            let recips = match self.groups(gcd) {
                Ok(os) => recipients_of(os),
                Err(_) => {
                    proof {
                        assert(false);
                    }
                    Vec::new()
                },
            };
            out.push(
                Outbound::Event(
                    recips,
                    LayerEvent::MemberOnline(gcd.duplicate(), gid.duplicate(), addr),
                ),
            );
        } else {
            out.push(Outbound::Result(gid.duplicate(), addr, false, Option::None));
        }
    }

    /// Handles a transport `Leave`: the address goes offline in every
    /// group that had it, and each remaining roster hears about it.
    #[verifier::loop_isolation(false)]
    fn handle_leave(&mut self, db: &Db, addr: &PeerAddr, out: &mut Vec<Outbound>) -> (r: ())
        requires
            wf_state(old(self)@, db@),
            old(out)@.len() == 0,
        ensures
            wf_state(final(self)@, db@),
            leave_post(old(self)@, addr@, final(self)@, final(out)@),
    {
        let ghost pre = self@;
        let n: usize = self.groups.len();
        let mut k: usize = 0;
        proof {
            assert(pre.take(0) =~= Seq::<PresenceGroupV>::empty());
        }
        while k < n
            invariant
                k <= n,
                n == self@.len(),
                pre.len() == n,
                wf_state(self@, db@),
                forall|j: int| k <= j < n ==> (#[trigger] self@[j]) == pre[j],
                forall|j: int|
                    0 <= j < k ==> (#[trigger] self@[j]) == (PresenceGroupV {
                        onlines: leave_roster(pre[j].onlines, addr@),
                        ..pre[j]
                    }),
                out@.len() == count_affected(pre.take(k as int), addr@),
                forall|j: int|
                    0 <= j < k && addr_index((#[trigger] pre[j]).onlines, addr@) >= 0 ==> (out@[
                        count_affected(pre.take(j), addr@)] matches Outbound::Event(
                        rs,
                        LayerEvent::MemberOffline(g, m),
                    ) && g@ == pre[j].gcd && m@ == pre[j].onlines[addr_index(
                        pre[j].onlines,
                        addr@,
                    )].m_id && recips_match(rs@, leave_roster(pre[j].onlines, addr@))),
            decreases n - k,
        {
            proof {
                assert(pre.take(k as int + 1).drop_last() =~= pre.take(k as int));
                assert(pre.take(k as int + 1).last() == pre[k as int]);
            }
            let ghost out_pre = out@;
            self.leave_step(db, k, addr, out);
            proof {
                let os = pre[k as int].onlines;
                if addr_index(os, addr@) >= 0 {
                    assert forall|j: int|
                        0 <= j < k as int + 1 && addr_index(
                            (#[trigger] pre[j]).onlines,
                            addr@,
                        ) >= 0 implies (out@[count_affected(pre.take(j), addr@)] matches Outbound::Event(
                        rs,
                        LayerEvent::MemberOffline(g, m),
                    ) && g@ == pre[j].gcd && m@ == pre[j].onlines[addr_index(
                        pre[j].onlines,
                        addr@,
                    )].m_id && recips_match(rs@, leave_roster(pre[j].onlines, addr@))) by {
                        if j < k as int {
                            lemma_count_affected_nonneg(pre.take(j), addr@);
                            lemma_count_affected_mono(pre, addr@, j + 1, k as int);
                            assert(pre.take(j + 1).drop_last() =~= pre.take(j));
                            assert(pre.take(j + 1).last() == pre[j]);
                            assert(0 <= count_affected(pre.take(j), addr@) < out_pre.len());
                            assert(out@[count_affected(pre.take(j), addr@)] == out_pre[
                                count_affected(pre.take(j), addr@)]);
                        } else {
                            assert(count_affected(pre.take(j), addr@) == out_pre.len() as int);
                        }
                    }
                }
            }
            k += 1;
        }
        proof {
            assert(pre.take(n as int) =~= pre);
        }
    }

    /// One group's part of a transport `Leave`.
    fn leave_step(&mut self, db: &Db, k: usize, addr: &PeerAddr, out: &mut Vec<Outbound>) -> (r: ())
        requires
            wf_state(old(self)@, db@),
            k < old(self)@.len(),
        ensures
            wf_state(final(self)@, db@),
            ({
                let os = old(self)@[k as int].onlines;
                let ai = addr_index(os, addr@);
                if ai < 0 {
                    final(self)@ == old(self)@ && final(out)@ == old(out)@
                } else {
                    &&& final(self)@ == old(self)@.update(
                        k as int,
                        PresenceGroupV { onlines: os.remove(ai), ..old(self)@[k as int] },
                    )
                    &&& final(out)@.len() == old(out)@.len() + 1
                    &&& forall|j: int| 0 <= j < old(out)@.len() ==> final(out)@[j] == old(out)@[j]
                    &&& (final(out)@.last() matches Outbound::Event(
                        rs,
                        LayerEvent::MemberOffline(g, m),
                    ) && g@ == old(self)@[k as int].gcd && m@ == os[ai].m_id && recips_match(
                        rs@,
                        os.remove(ai),
                    ))
                }
            }),
    {
        let ghost prew = self@;
        let ghost os = prew[k as int].onlines;
        let found: Option<usize> = find_addr(&self.groups[k].onlines, addr);
        let ai: usize = match found {
            Some(i) => i,
            Option::None => {
                return ;
            },
        };
        let mut pg = self.groups.remove(k);
        proof {
            assert(self@ =~= prew.remove(k as int));
        }
        let mid = pg.onlines[ai].m_id.duplicate();
        let gcd_copy = pg.gcd.duplicate();
        pg.onlines.remove(ai);
        proof {
            assert(pg@.onlines =~= os.remove(ai as int));
        }
        let ghost vecpre = self.groups@;
        let ghost pgg = pg;
        self.groups.insert(k, pg);
        proof {
            vecpre.insert_ensures(k as int, pgg);
            assert(self.groups@[k as int] == pgg);
            assert(self@[k as int] == pgg@);
            assert forall|j: int|
                0 <= j < self@.len() && j != k as int implies self@[j] == prew[j] by {
                if j < k as int {
                    assert(self.groups@[j] == vecpre[j]);
                    assert(vecpre[j]@ == prew.remove(k as int)[j]);
                } else {
                    assert(self.groups@[j] == vecpre[j - 1]);
                    assert(vecpre[j - 1]@ == prew.remove(k as int)[j - 1]);
                }
            }
            assert(pgg@ =~= (PresenceGroupV {
                onlines: os.remove(ai as int),
                ..prew[k as int]
            }));
            assert(self@ =~~= prew.update(
                k as int,
                PresenceGroupV { onlines: os.remove(ai as int), ..prew[k as int] },
            ));
            assert forall|i: int, j: int|
                0 <= i < j < os.remove(ai as int).len() implies (#[trigger] os.remove(
                ai as int,
            )[i]).m_id != (#[trigger] os.remove(ai as int)[j]).m_id by {
                let osr = os.remove(ai as int);
                let i0: int = if i < ai { i } else { i + 1 };
                let j0: int = if j < ai { j } else { j + 1 };
                assert(osr[i] == os[i0] && osr[j] == os[j0]);
            }
            assert forall|i: int| 0 <= i < os.remove(ai as int).len() implies {
                let mi = member_index(
                    db@.members,
                    prew[k as int].fid,
                    (#[trigger] os.remove(ai as int)[i]).m_id,
                );
                mi >= 0 && !db@.members[mi].is_deleted
            } by {
                let osr = os.remove(ai as int);
                let i0: int = if i < ai { i } else { i + 1 };
                assert(osr[i] == os[i0]);
                assert(prew[k as int].onlines == os);
            }
            lemma_state_roster_change(prew, db@, k as int, os.remove(ai as int));
        }
        let recips = recipients_of(&self.groups[k].onlines);
        proof {
            assert(self@[k as int].onlines == os.remove(ai as int));
        }
        out.push(Outbound::Event(recips, LayerEvent::MemberOffline(gcd_copy, mid)));
    }

    /// Handles a `SyncReq`: an online sender below the group's height gets
    /// one packed window of the log back.
    fn handle_sync_req(
        &self,
        db: &Db,
        blobs: &Blobs,
        gid: &GroupId,
        addr: &PeerAddr,
        gcd: &GroupId,
        from: i64,
        out: &mut Vec<Outbound>,
    ) -> (r: Result<(), ServerError>)
        requires
            wf_state(self@, db@),
            old(out)@.len() == 0,
        ensures
            sync_req_post(self@, db@, blobs@, gid@, addr@, gcd@, from, final(out)@, r),
    {
        if !self.is_online_member(gcd, gid) {
            return Ok(());
        }
        let (height, fid): (i64, i64) = match self.height_and_fid(gcd) {
            Ok(p) => p,
            Err(_) => {
                proof {
                    assert(false);
                }
                return Ok(());
            },
        };
        if from < 0 || from >= height {
            return Ok(());
        }
        let to: i64 = if height - from > crate::SYNC_WINDOW {
            from + crate::SYNC_WINDOW
        } else {
            height
        };
        proof {
            lemma_pres_index(self@, gcd@);
            let pi = pres_index(self@, gcd@);
            assert(self@[pi].height == height && self@[pi].fid == fid);
            assert(1 <= fid <= db@.groups.len());
            assert(db@.groups[fid - 1].height == height);
        }
        let packed = match Consensus::pack(db, blobs, gcd, fid, from, to) {
            Ok(v) => v,
            Err(_) => {
                return Err(ServerError::Storage);
            },
        };
        let mut recips: Vec<(GroupId, PeerAddr)> = Vec::new();
        recips.push((gid.duplicate(), addr.duplicate()));
        out.push(
            Outbound::Event(
                recips,
                LayerEvent::Packed(gcd.duplicate(), height, from, to, packed),
            ),
        );
        Ok(())
    }

    /// Handles a `Sync`: applies an online sender's event to the tables,
    /// logs it at the next height and broadcasts the applied event at that
    /// height to the whole roster.
    #[verifier::rlimit(100)]
    fn handle_sync(
        &mut self,
        db: &mut Db,
        blobs: &mut Blobs,
        gid: &GroupId,
        gcd: &GroupId,
        event: Event,
        now_ms: u64,
        out: &mut Vec<Outbound>,
    ) -> (r: Result<(), ServerError>)
        requires
            wf_state(old(self)@, old(db)@),
            old(db)@.consensus.len() + 1 < i64::MAX,
            old(db)@.messages.len() < i64::MAX,
            old(out)@.len() == 0,
        ensures
            wf_state(final(self)@, final(db)@),
            sync_post(
                old(self)@,
                old(db)@,
                old(blobs)@,
                gid@,
                gcd@,
                event,
                now_ms,
                final(self)@,
                final(db)@,
                final(blobs)@,
                final(out)@,
                r,
            ),
    {
        if !self.is_online_member(gcd, gid) {
            return Ok(());
        }
        let ghost pre_l = self@;
        let ghost pre_d = db@;
        let ghost pre_b = blobs@;
        let ghost pi = pres_index(pre_l, gcd@);
        proof {
            lemma_pres_index(pre_l, gcd@);
        }
        let fid: i64 = match self.fid(gcd) {
            Ok(f) => f,
            Err(_) => {
                proof {
                    assert(false);
                }
                return Ok(());
            },
        };
        let recips = match self.groups(gcd) {
            Ok(os) => recipients_of(os),
            Err(_) => {
                proof {
                    assert(false);
                }
                Vec::new()
            },
        };
        let (cid, ctype): (i64, ConsensusType) = match &event {
            Event::GroupInfo => (0, ConsensusType::GroupInfo),
            Event::GroupTransfer => (0, ConsensusType::GroupTransfer),
            Event::GroupManagerAdd => (0, ConsensusType::GroupManagerAdd),
            Event::GroupManagerDel => (0, ConsensusType::GroupManagerDel),
            Event::GroupClose => (0, ConsensusType::GroupClose),
            Event::MemberInfo(mid, _, _, _) => {
                proof {
                    crate::models::lemma_member_index(db@.members, fid, mid@);
                }
                let m: i64 = match Member::get(db, fid, mid) {
                    Ok(m) => m.id,
                    Err(_) => {
                        return Err(ServerError::NotFound);
                    },
                };
                (m, ConsensusType::MemberInfo)
            },
            Event::MemberLeave(mid) => {
                proof {
                    crate::models::lemma_member_index(db@.members, fid, mid@);
                }
                let m: i64 = match Member::get(db, fid, mid) {
                    Ok(m) => m.id,
                    Err(_) => {
                        return Err(ServerError::NotFound);
                    },
                };
                let ghost mi = member_index(pre_d.members, fid, mid@);
                self.del_member(gcd, mid);
                let ghost oi = online_index(pre_l[pi].onlines, mid@);
                let ghost os2 = if oi >= 0 {
                    pre_l[pi].onlines.remove(oi)
                } else {
                    pre_l[pi].onlines
                };
                proof {
                    lemma_online_index(pre_l[pi].onlines, mid@);
                    if oi >= 0 {
                        assert(self@ == pre_l.update(
                            pi,
                            PresenceGroupV { onlines: os2, ..pre_l[pi] },
                        ));
                        assert forall|a: int, b: int| 0 <= a < b < os2.len() implies (
                        #[trigger] os2[a]).m_id != (#[trigger] os2[b]).m_id by {
                            let os = pre_l[pi].onlines;
                            let a0: int = if a < oi { a } else { a + 1 };
                            let b0: int = if b < oi { b } else { b + 1 };
                            assert(os2[a] == os[a0] && os2[b] == os[b0]);
                        }
                        assert forall|a: int| 0 <= a < os2.len() implies {
                            let mj = member_index(pre_d.members, pre_l[pi].fid, (
                            #[trigger] os2[a]).m_id);
                            mj >= 0 && !pre_d.members[mj].is_deleted
                        } by {
                            let os = pre_l[pi].onlines;
                            let a0: int = if a < oi { a } else { a + 1 };
                            assert(os2[a] == os[a0]);
                        }
                        lemma_state_roster_change(pre_l, pre_d, pi, os2);
                    } else {
                        assert(self@ == pre_l);
                    }
                    lemma_pres_index_same_gcds(pre_l, self@, gcd@);
                    // After the roster drop, no group lists the leaver.
                    assert forall|k: int|
                        0 <= k < self@.len() && (#[trigger] self@[k]).fid == pre_d.members[
                        mi].fid implies online_index(self@[k].onlines, pre_d.members[mi].m_id)
                        < 0 by {
                        assert(pre_d.members[mi].fid == fid && pre_d.members[mi].m_id == mid@);
                        if k != pi {
                            assert(self@[k].gcd == pre_l[k].gcd);
                            assert(pre_d.groups[fid - 1].g_id == pre_l[pi].gcd);
                            assert(pre_l[k].gcd == pre_d.groups[fid - 1].g_id);
                            assert(false);
                        } else {
                            lemma_online_index(self@[k].onlines, mid@);
                            if online_index(self@[k].onlines, mid@) >= 0 {
                                let x = online_index(self@[k].onlines, mid@);
                                if oi >= 0 {
                                    let os = pre_l[pi].onlines;
                                    let x0: int = if x < oi { x } else { x + 1 };
                                    assert(os2[x] == os[x0]);
                                    assert(x0 != oi);
                                    // Two roster entries would carry the same
                                    // identity.
                                    assert(os[oi].m_id == mid@ && os[x0].m_id == mid@);
                                    if x0 < oi {
                                        assert(os[x0].m_id != os[oi].m_id);
                                    } else {
                                        assert(os[oi].m_id != os[x0].m_id);
                                    }
                                    assert(false);
                                } else {
                                    assert(false);
                                }
                            }
                        }
                    }
                    lemma_state_member_leave(self@, pre_d, mi);
                }
                Member::leave(db, m);
                blobs.delete_avatar(gcd, mid);
                (m, ConsensusType::MemberLeave)
            },
            Event::MessageCreate(mid, nmsg, _) => {
                proof {
                    crate::models::lemma_member_index(db@.members, fid, mid@);
                }
                let id: i64 = match Message::from_network_message(
                    db,
                    blobs,
                    gcd,
                    fid,
                    mid,
                    nmsg,
                    now_ms,
                ) {
                    Ok(i) => i,
                    Err(e) => {
                        return Err(e);
                    },
                };
                proof {
                    lemma_state_same_link(pre_l, pre_d, db@);
                }
                (id, ConsensusType::MessageCreate)
            },
            Event::MemberJoin(_, _, _, _, _) => {
                return Ok(());
            },
        };
        let ghost mid_l = self@;
        let ghost mid_d = db@;
        let h: i64 = match self.add_height(db, gcd, cid, ctype) {
            Ok(h) => h,
            Err(_) => {
                proof {
                    lemma_pres_index_same_gcds(pre_l, mid_l, gcd@);
                    assert(false);
                }
                return Err(ServerError::NotFound);
            },
        };
        proof {
            lemma_pres_index_same_gcds(pre_l, mid_l, gcd@);
        }
        let ghost ev_g = event;
        out.push(Outbound::Event(recips, LayerEvent::Sync(gcd.duplicate(), h, event)));
        proof {
            if ev_g is MemberLeave {
                let oi = online_index(pre_l[pi].onlines, match ev_g {
                    Event::MemberLeave(mid) => mid@,
                    _ => Seq::empty(),
                });
                if oi >= 0 {
                    assert(self@ =~~= pre_l.update(
                        pi,
                        PresenceGroupV {
                            height: h,
                            onlines: mid_l[pi].onlines,
                            ..pre_l[pi]
                        },
                    ));
                }
            }
        }
        Ok(())
    }

    /// Admits a member into a served group: upserts the row, stores the
    /// avatar, marks the member online, logs the join at the next height
    /// and broadcasts it to the whole roster — the server-side half of
    /// every successful join.
    #[verifier::rlimit(60)]
    fn broadcast_join(
        &mut self,
        db: &mut Db,
        blobs: &mut Blobs,
        gcd: &GroupId,
        member: Member,
        avatar: &Vec<u8>,
        out: &mut Vec<Outbound>,
    ) -> (r: ())
        requires
            wf_state(old(self)@, old(db)@),
            pres_index(old(self)@, gcd@) >= 0,
            member@.fid == old(self)@[pres_index(old(self)@, gcd@)].fid,
            !member@.is_deleted,
            old(db)@.members.len() < i64::MAX,
            old(db)@.consensus.len() + 1 < i64::MAX,
        ensures
            wf_state(final(self)@, final(db)@),
            final(out)@.len() == old(out)@.len() + 1,
            forall|j: int| 0 <= j < old(out)@.len() ==> final(out)@[j] == old(out)@[j],
            admit_post(
                old(self)@,
                old(db)@,
                old(blobs)@,
                gcd@,
                member@,
                avatar@,
                final(self)@,
                final(db)@,
                final(blobs)@,
                final(out)@.skip(old(out)@.len() as int),
            ),
    {
        let ghost pre_l = self@;
        let ghost pre_d = db@;
        let ghost pi = pres_index(pre_l, gcd@);
        let ghost rowv = member@;
        proof {
            lemma_pres_index(pre_l, gcd@);
        }
        let mut member = member;
        member.insert(db);
        let mid: i64 = member.id;
        proof {
            assert(db@.members == crate::models::member_upsert(pre_d.members, rowv));
            assert(mid == crate::models::member_upsert_id(pre_d.members, rowv));
            lemma_state_member_upsert(pre_l, pre_d, rowv);
            assert(db@ =~= (DbV {
                members: crate::models::member_upsert(pre_d.members, rowv),
                ..pre_d
            }));
            crate::models::lemma_member_index(pre_d.members, rowv.fid, rowv.m_id);
        }
        blobs.write_avatar(gcd, &member.m_id, avatar);
        let ghost d1 = db@;
        self.add_member(gcd, member.m_id.duplicate(), member.m_addr.duplicate());
        let ghost os = pre_l[pi].onlines;
        let ghost oi = online_index(os, rowv.m_id);
        let ghost os2 = if oi >= 0 {
            os.update(oi, OnlineMemberV { m_addr: rowv.m_addr, ..os[oi] })
        } else {
            os.push(OnlineMemberV { m_id: rowv.m_id, m_addr: rowv.m_addr, is_manager: false })
        };
        proof {
            lemma_online_index(os, rowv.m_id);
            assert(self@ == pre_l.update(pi, PresenceGroupV { onlines: os2, ..pre_l[pi] }));
            assert forall|a: int, b: int| 0 <= a < b < os2.len() implies (
            #[trigger] os2[a]).m_id != (#[trigger] os2[b]).m_id by {
                if oi >= 0 {
                    assert(os2[a].m_id == os[a].m_id && os2[b].m_id == os[b].m_id);
                } else {
                    if b < os.len() {
                        assert(os2[a].m_id == os[a].m_id && os2[b].m_id == os[b].m_id);
                    } else {
                        assert(os2[a].m_id == os[a].m_id && os2[b].m_id == rowv.m_id);
                    }
                }
            }
            crate::models::lemma_member_upsert_index(pre_d.members, rowv);
            assert forall|a: int| 0 <= a < os2.len() implies {
                let mj = member_index(d1.members, pre_l[pi].fid, (#[trigger] os2[a]).m_id);
                mj >= 0 && !d1.members[mj].is_deleted
            } by {
                if a < os.len() {
                    assert(os2[a].m_id == os[a].m_id);
                    let key_mid = os[a].m_id;
                    crate::models::lemma_member_index(pre_d.members, pre_l[pi].fid, key_mid);
                    let mj = member_index(pre_d.members, pre_l[pi].fid, key_mid);
                    let i0 = member_index(pre_d.members, rowv.fid, rowv.m_id);
                    if i0 >= 0 {
                        lemma_member_index_same_keys(
                            pre_d.members,
                            d1.members,
                            pre_l[pi].fid,
                            key_mid,
                        );
                        if mj == i0 {
                            assert(!d1.members[mj].is_deleted);
                        } else {
                            assert(d1.members[mj] == pre_d.members[mj]);
                        }
                    } else {
                        crate::models::lemma_member_index_push(
                            pre_d.members,
                            MemberV { id: (pre_d.members.len() + 1) as i64, ..rowv },
                            pre_l[pi].fid,
                            key_mid,
                        );
                        assert(d1.members[mj] == pre_d.members[mj]);
                    }
                } else {
                    assert(os2[a].m_id == rowv.m_id);
                    let mj = member_index(d1.members, rowv.fid, rowv.m_id);
                    assert(mj >= 0 && !d1.members[mj].is_deleted);
                }
            }
            lemma_state_roster_change(pre_l, d1, pi, os2);
            lemma_pres_index_same_gcds(pre_l, self@, gcd@);
        }
        let datetime: i64 = member.datetime;
        let ev = Event::MemberJoin(
            member.m_id,
            member.m_addr,
            member.m_name,
            crate::ids::copy_bytes(avatar),
            datetime,
        );
        let ghost mid_l = self@;
        let h: i64 = match self.add_height(db, gcd, mid, ConsensusType::MemberJoin) {
            Ok(h) => h,
            Err(_) => {
                proof {
                    assert(false);
                }
                return ;
            },
        };
        proof {
            lemma_pres_index_same_gcds(pre_l, mid_l, gcd@);
        }
        let recips = match self.groups(gcd) {
            Ok(os) => recipients_of(os),
            Err(_) => {
                proof {
                    lemma_pres_index_same_gcds(pre_l, self@, gcd@);
                    assert(false);
                }
                Vec::new()
            },
        };
        let ghost out_pre = out@;
        out.push(Outbound::Event(recips, LayerEvent::Sync(gcd.duplicate(), h, ev)));
        proof {
            lemma_pres_index_same_gcds(pre_l, self@, gcd@);
            assert(self@[pi].onlines == os2);
            assert(self@ =~~= pre_l.update(
                pi,
                PresenceGroupV { height: h, onlines: os2, ..pre_l[pi] },
            ));
            assert(final(out)@.skip(out_pre.len() as int) =~= seq![final(out)@.last()]);
        }
    }

    /// Confirms an admission to the joiner: the group's description, its
    /// avatar inlined, in one `Agree` envelope.
    fn agree(
        &self,
        db: &Db,
        blobs: &Blobs,
        gcd: &GroupId,
        gid: &GroupId,
        addr: &PeerAddr,
        fid: i64,
        out: &mut Vec<Outbound>,
    ) -> (r: Result<(), ServerError>)
        requires
            1 <= fid <= db@.groups.len(),
        ensures
            final(out)@.len() == old(out)@.len() + (if r is Ok {
                1int
            } else {
                0int
            }),
            forall|j: int| 0 <= j < old(out)@.len() ==> final(out)@[j] == old(out)@[j],
            r is Ok <==> !db@.groups[fid - 1].is_deleted,
            r is Err ==> r == Err::<(), ServerError>(ServerError::NotFound),
            r is Ok ==> (final(out)@.last() matches Outbound::Event(
                rs,
                LayerEvent::Agree(g, gi),
            ) && {
                let grp = db@.groups[fid - 1];
                &&& solo_recip(rs@, gid@, addr@)
                &&& g@ == gcd@
                &&& (gi matches GroupInfo::Common(o, on, oa, gg, gt, na, nm, bi, av) && o@
                    == grp.owner && on@ == Seq::<char>::empty() && oa@ == Seq::<u8>::empty() && gg@
                    == grp.g_id && gt == grp.g_type && na == grp.is_need_agree && nm@ == grp.g_name
                    && bi@ == grp.g_bio && av@ == blob_lookup(
                    blobs@,
                    gcd@,
                    BlobDir::Avatars,
                    avatar_name(gcd@),
                ))
            }),
    {
        let group = match GroupChat::get_id(db, fid) {
            Ok(g) => g,
            Err(_) => {
                return Err(ServerError::NotFound);
            },
        };
        let gavatar = blobs.read_avatar(gcd, gcd);
        let info = group.to_group_info(gavatar);
        let mut recips: Vec<(GroupId, PeerAddr)> = Vec::new();
        recips.push((gid.duplicate(), addr.duplicate()));
        out.push(Outbound::Event(recips, LayerEvent::Agree(gcd.duplicate(), info)));
        Ok(())
    }

    /// Handles a join `Request`: open groups admit anyone, invitations
    /// admit when the inviter is a member and either no agreement is
    /// needed or the inviter manages the group; otherwise the online
    /// managers are asked to decide.
    #[verifier::rlimit(100)]
    fn handle_request(
        &mut self,
        db: &mut Db,
        blobs: &mut Blobs,
        gid: &GroupId,
        addr: &PeerAddr,
        gcd: &GroupId,
        join_proof: JoinProof,
        now_ms: u64,
        out: &mut Vec<Outbound>,
    ) -> (r: Result<(), ServerError>)
        requires
            wf_state(old(self)@, old(db)@),
            db_has_room(old(db)@),
            old(out)@.len() == 0,
        ensures
            wf_state(final(self)@, final(db)@),
            request_post(
                old(self)@,
                old(db)@,
                old(blobs)@,
                gid@,
                addr@,
                gcd@,
                join_proof,
                now_ms,
                final(self)@,
                final(db)@,
                final(blobs)@,
                final(out)@,
                r,
            ),
    {
        let ghost pre_l = self@;
        let ghost pre_d = db@;
        let ghost pre_b = blobs@;
        let secs: i64 = (now_ms / 1000) as i64;
        match join_proof {
            JoinProof::Zkp(_) => Ok(()),
            JoinProof::Open(mname, mavatar) => {
                let fid: i64 = match self.fid(gcd) {
                    Ok(f) => f,
                    Err(_) => {
                        let mut recips: Vec<(GroupId, PeerAddr)> = Vec::new();
                        recips.push((gid.duplicate(), addr.duplicate()));
                        out.push(
                            Outbound::Event(recips, LayerEvent::Reject(gcd.duplicate(), true)),
                        );
                        return Ok(());
                    },
                };
                proof {
                    lemma_pres_index(pre_l, gcd@);
                }
                let g_type: GroupType = match GroupChat::get_id(db, fid) {
                    Ok(g) => g.g_type,
                    Err(_) => {
                        return Err(ServerError::NotFound);
                    },
                };
                proof {
                    crate::models::lemma_member_index(pre_d.members, fid, gid@);
                }
                if Member::exist(db, fid, gid) {
                    let ghost pi = pres_index(pre_l, gcd@);
                    self.add_member(gcd, gid.duplicate(), addr.duplicate());
                    proof {
                        let os = pre_l[pi].onlines;
                        let os2 = roster_with(os, gid@, addr@);
                        lemma_online_index(os, gid@);
                        assert forall|a: int, b: int| 0 <= a < b < os2.len() implies (
                        #[trigger] os2[a]).m_id != (#[trigger] os2[b]).m_id by {
                            lemma_roster_with_ids(os, gid@, addr@, a, b);
                        }
                        assert forall|a: int| 0 <= a < os2.len() implies {
                            let mj = member_index(pre_d.members, pre_l[pi].fid, (
                            #[trigger] os2[a]).m_id);
                            mj >= 0 && !pre_d.members[mj].is_deleted
                        } by {
                            if a < os.len() {
                                assert(os2[a].m_id == os[a].m_id);
                            } else {
                                assert(os2[a].m_id == gid@);
                            }
                        }
                        lemma_state_roster_change(pre_l, pre_d, pi, os2);
                    }
                    let rr = self.agree(db, blobs, gcd, gid, addr, fid, out);
                    proof {
                        assert(rr is Ok);
                    }
                    return Ok(());
                }
                if matches!(g_type, GroupType::Open) {
                    let member = Member::new(
                        fid,
                        gid.duplicate(),
                        addr.duplicate(),
                        mname,
                        false,
                        secs,
                    );
                    self.broadcast_join(db, blobs, gcd, member, &mavatar, out);
                    let rr = self.agree(db, blobs, gcd, gid, addr, fid, out);
                    proof {
                        assert(db@.groups[fid - 1].is_deleted == pre_d.groups[fid - 1].is_deleted);
                        assert(rr is Ok);
                        assert(final(out)@.take(1) =~= seq![final(out)@[0]]);
                    }
                    Ok(())
                } else {
                    let mut recips: Vec<(GroupId, PeerAddr)> = Vec::new();
                    recips.push((gid.duplicate(), addr.duplicate()));
                    out.push(Outbound::Event(recips, LayerEvent::Reject(gcd.duplicate(), false)));
                    Ok(())
                }
            },
            JoinProof::Invite(inviter, proof_cred, mname, mavatar) => {
                let fid: i64 = match self.fid(gcd) {
                    Ok(f) => f,
                    Err(_) => {
                        let mut recips: Vec<(GroupId, PeerAddr)> = Vec::new();
                        recips.push((gid.duplicate(), addr.duplicate()));
                        out.push(
                            Outbound::Event(recips, LayerEvent::Reject(gcd.duplicate(), true)),
                        );
                        return Ok(());
                    },
                };
                proof {
                    lemma_pres_index(pre_l, gcd@);
                }
                let (g_need_agree, _g_type): (bool, GroupType) = match GroupChat::get_id(db, fid) {
                    Ok(g) => (g.is_need_agree, g.g_type),
                    Err(_) => {
                        return Err(ServerError::NotFound);
                    },
                };
                proof {
                    crate::models::lemma_member_index(pre_d.members, fid, gid@);
                    crate::models::lemma_member_index(pre_d.members, fid, inviter@);
                }
                if Member::exist(db, fid, gid) {
                    let ghost pi = pres_index(pre_l, gcd@);
                    self.add_member(gcd, gid.duplicate(), addr.duplicate());
                    proof {
                        let os = pre_l[pi].onlines;
                        let os2 = roster_with(os, gid@, addr@);
                        lemma_online_index(os, gid@);
                        assert forall|a: int, b: int| 0 <= a < b < os2.len() implies (
                        #[trigger] os2[a]).m_id != (#[trigger] os2[b]).m_id by {
                            lemma_roster_with_ids(os, gid@, addr@, a, b);
                        }
                        assert forall|a: int| 0 <= a < os2.len() implies {
                            let mj = member_index(pre_d.members, pre_l[pi].fid, (
                            #[trigger] os2[a]).m_id);
                            mj >= 0 && !pre_d.members[mj].is_deleted
                        } by {
                            if a < os.len() {
                                assert(os2[a].m_id == os[a].m_id);
                            } else {
                                assert(os2[a].m_id == gid@);
                            }
                        }
                        lemma_state_roster_change(pre_l, pre_d, pi, os2);
                    }
                    let rr = self.agree(db, blobs, gcd, gid, addr, fid, out);
                    proof {
                        assert(rr is Ok);
                    }
                    return Ok(());
                }
                if !Member::exist(db, fid, &inviter) {
                    let mut recips: Vec<(GroupId, PeerAddr)> = Vec::new();
                    recips.push((gid.duplicate(), addr.duplicate()));
                    out.push(Outbound::Event(recips, LayerEvent::Reject(gcd.duplicate(), true)));
                    return Ok(());
                }
                let inviter_is_manager = Member::is_manager(db, fid, &inviter);
                if g_need_agree && !inviter_is_manager {
                    let mut request = Request::new(
                        fid,
                        gid.duplicate(),
                        addr.duplicate(),
                        mname.clone(),
                        secs,
                    );
                    request.insert(db);
                    let rid: i64 = request.id;
                    let recips = match self.groups(gcd) {
                        Ok(os) => manager_recipients_of(os),
                        Err(_) => {
                            proof {
                                assert(false);
                            }
                            Vec::new()
                        },
                    };
                    out.push(
                        Outbound::Event(
                            recips,
                            LayerEvent::RequestHandle(
                                gcd.duplicate(),
                                gid.duplicate(),
                                addr.duplicate(),
                                JoinProof::Invite(inviter, proof_cred, mname, mavatar),
                                rid,
                                secs,
                            ),
                        ),
                    );
                    proof {
                        lemma_state_same_link(pre_l, pre_d, db@);
                    }
                    Ok(())
                } else {
                    let member = Member::new(
                        fid,
                        gid.duplicate(),
                        addr.duplicate(),
                        mname,
                        false,
                        secs,
                    );
                    self.broadcast_join(db, blobs, gcd, member, &mavatar, out);
                    let rr = self.agree(db, blobs, gcd, gid, addr, fid, out);
                    proof {
                        assert(db@.groups[fid - 1].is_deleted == pre_d.groups[fid - 1].is_deleted);
                        assert(rr is Ok);
                        assert(final(out)@.take(1) =~= seq![final(out)@[0]]);
                    }
                    Ok(())
                }
            },
        }
    }

    /// Handles a manager's `RequestResult`.
    #[verifier::rlimit(100)]
    fn handle_request_result(
        &mut self,
        db: &mut Db,
        blobs: &mut Blobs,
        gid: &GroupId,
        gcd: &GroupId,
        rid: i64,
        okf: bool,
        out: &mut Vec<Outbound>,
    ) -> (r: Result<(), ServerError>)
        requires
            wf_state(old(self)@, old(db)@),
            db_has_room(old(db)@),
            old(out)@.len() == 0,
        ensures
            wf_state(final(self)@, final(db)@),
            request_result_post(
                old(self)@,
                old(db)@,
                old(blobs)@,
                gid@,
                gcd@,
                rid,
                okf,
                final(self)@,
                final(db)@,
                final(blobs)@,
                final(out)@,
                r,
            ),
    {
        let ghost pre_l = self@;
        let ghost pre_d = db@;
        let ghost pre_b = blobs@;
        let fid: i64 = match self.fid(gcd) {
            Ok(f) => f,
            Err(_) => {
                return Err(ServerError::NotFound);
            },
        };
        proof {
            lemma_pres_index(pre_l, gcd@);
            crate::models::lemma_member_index(pre_d.members, fid, gid@);
        }
        if !Member::is_manager(db, fid, gid) {
            return Ok(());
        }
        let (req_fid, req_mid, req_maddr, req_mname, req_time): (
            i64,
            GroupId,
            PeerAddr,
            String,
            i64,
        ) = match Request::get(db, rid) {
            Ok(q) => (
                q.fid,
                q.m_id.duplicate(),
                q.m_addr.duplicate(),
                q.m_name.clone(),
                q.datetime,
            ),
            Err(_) => {
                return Err(ServerError::NotFound);
            },
        };
        if req_fid == fid {
            if okf {
                let rr = self.agree(db, blobs, gcd, &req_mid, &req_maddr, fid, out);
                if rr.is_err() {
                    return Err(ServerError::NotFound);
                }
                let member = Member::new(
                    fid,
                    req_mid.duplicate(),
                    req_maddr.duplicate(),
                    req_mname,
                    false,
                    req_time,
                );
                let mavatar = blobs.read_avatar(gcd, &req_mid);
                self.broadcast_join(db, blobs, gcd, member, &mavatar, out);
            } else {
                let mut recips1: Vec<(GroupId, PeerAddr)> = Vec::new();
                recips1.push((req_mid.duplicate(), req_maddr.duplicate()));
                out.push(Outbound::Event(recips1, LayerEvent::Reject(gcd.duplicate(), true)));
            }
        }
        let ghost mid_l = self@;
        let ghost out_mid = out@;
        proof {
            lemma_pres_index_same_gcds(pre_l, mid_l, gcd@);
        }
        let mrecips = match self.groups(gcd) {
            Ok(os) => manager_recipients_of(os),
            Err(_) => {
                proof {
                    assert(false);
                }
                Vec::new()
            },
        };
        out.push(
            Outbound::Event(mrecips, LayerEvent::RequestResult(gcd.duplicate(), rid, okf)),
        );
        proof {
            if req_fid == fid && okf {
                assert(out@.subrange(1, 2) =~= out_mid.skip(1));
            }
        }
        Ok(())
    }

    /// Handles a `Create`.
    #[verifier::rlimit(100)]
    fn handle_create(
        &mut self,
        db: &mut Db,
        blobs: &mut Blobs,
        gid: &GroupId,
        addr: &PeerAddr,
        info: GroupInfo,
        now_ms: u64,
        out: &mut Vec<Outbound>,
    ) -> (r: ())
        requires
            wf_state(old(self)@, old(db)@),
            db_has_room(old(db)@),
            old(out)@.len() == 0,
        ensures
            wf_state(final(self)@, final(db)@),
            create_post(
                old(self)@,
                old(db)@,
                old(blobs)@,
                gid@,
                addr@,
                info,
                now_ms,
                final(self)@,
                final(db)@,
                final(blobs)@,
                final(out)@,
            ),
    {
        let ghost pre_l = self@;
        let ghost pre_d = db@;
        let ghost pre_b = blobs@;
        let secs: i64 = (now_ms / 1000) as i64;
        proof {
            crate::models::lemma_manager_index(pre_d.managers, gid@);
        }
        // Find or create the manager row; the verdict is read from the
        // stored row afterwards.
        let (mrow_id, stored_times, stored_closed): (i64, i32, bool) = match Manager::get(
            db,
            gid,
        ) {
            Ok(m) => (m.id, m.times, m.is_closed),
            Err(_) => {
                if crate::PERMISSIONLESS {
                    let mut manager = Manager::new(gid.duplicate(), secs);
                    manager.insert(db);
                    proof {
                        assert(db@.managers =~= crate::models::manager_upsert(
                            pre_d.managers,
                            gid@,
                            secs,
                        ));
                        assert(db@ =~= (DbV {
                            managers: crate::models::manager_upsert(pre_d.managers, gid@, secs),
                            ..pre_d
                        }));
                        lemma_state_same_link(pre_l, pre_d, db@);
                        // The upsert leaves the identity's row live at the
                        // same first-match position.
                        if manager_index(pre_d.managers, gid@) >= 0 {
                            let mi0 = manager_index(pre_d.managers, gid@);
                            assert(db@.managers[mi0].gid == gid@);
                            assert forall|j: int|
                                0 <= j < mi0 implies (#[trigger] db@.managers[j]).gid != gid@ by {
                                assert(db@.managers[j] == pre_d.managers[j]);
                                if pre_d.managers[j].gid == gid@ {
                                    crate::models::lemma_manager_index_first(
                                        pre_d.managers,
                                        gid@,
                                        j,
                                    );
                                }
                            }
                            crate::models::lemma_manager_index_prefix(db@.managers, gid@, mi0);
                        } else {
                            assert forall|j: int|
                                0 <= j < pre_d.managers.len() implies (
                            #[trigger] db@.managers[j]).gid != gid@ by {
                                assert(db@.managers[j] == pre_d.managers[j]);
                            }
                            assert(db@.managers[pre_d.managers.len() as int].gid == gid@);
                            crate::models::lemma_manager_index_prefix(
                                db@.managers,
                                gid@,
                                pre_d.managers.len() as int,
                            );
                        }
                    }
                    match Manager::get(db, gid) {
                        Ok(m) => (m.id, m.times, m.is_closed),
                        Err(_) => {
                            proof {
                                assert(false);
                            }
                            return ;
                        },
                    }
                } else {
                    let mut recips: Vec<(GroupId, PeerAddr)> = Vec::new();
                    recips.push((gid.duplicate(), addr.duplicate()));
                    out.push(
                        Outbound::Event(
                            recips,
                            LayerEvent::CheckResult(
                                CheckType::Deny,
                                String::new(),
                                0,
                                Vec::new(),
                            ),
                        ),
                    );
                    return ;
                }
            },
        };
        let ghost d1 = db@;
        let ghost mrow = if manager_index(pre_d.managers, gid@) >= 0 {
            manager_index(pre_d.managers, gid@)
        } else {
            pre_d.managers.len() as int
        };
        proof {
            assert(1 <= mrow_id <= d1.managers.len());
            assert(mrow_id == d1.managers[mrow].id);
            assert(mrow == mrow_id - 1);
            assert(stored_times == d1.managers[mrow].times);
            assert(stored_closed == d1.managers[mrow].is_closed);
        }
        if stored_closed {
            let t: i64 = stored_times as i64;
            let mut supported: Vec<GroupType> = Vec::new();
            supported.push(GroupType::Encrypted);
            supported.push(GroupType::Private);
            supported.push(GroupType::Open);
            proof {
                assert(supported@ =~= supported_kinds());
            }
            let mut recips: Vec<(GroupId, PeerAddr)> = Vec::new();
            recips.push((gid.duplicate(), addr.duplicate()));
            out.push(
                Outbound::Event(
                    recips,
                    LayerEvent::CheckResult(
                        CheckType::Suspend,
                        String::from_str(crate::NAME),
                        t,
                        supported,
                    ),
                ),
            );
            return ;
        }
        if stored_times <= 0 {
            let mut supported: Vec<GroupType> = Vec::new();
            supported.push(GroupType::Encrypted);
            supported.push(GroupType::Private);
            supported.push(GroupType::Open);
            proof {
                assert(supported@ =~= supported_kinds());
            }
            let mut recips: Vec<(GroupId, PeerAddr)> = Vec::new();
            recips.push((gid.duplicate(), addr.duplicate()));
            out.push(
                Outbound::Event(
                    recips,
                    LayerEvent::CheckResult(
                        CheckType::Exhausted,
                        String::from_str(crate::NAME),
                        0,
                        supported,
                    ),
                ),
            );
            return ;
        }
        match info {
            GroupInfo::Encrypted(_o, _on, _oa, g_id, _na, _kh, _en, _eb, _ea) => {
                let mut recips: Vec<(GroupId, PeerAddr)> = Vec::new();
                recips.push((gid.duplicate(), addr.duplicate()));
                out.push(
                    Outbound::Event(recips, LayerEvent::CreateResult(g_id, false)),
                );
            },
            GroupInfo::Common(
                owner,
                owner_name,
                owner_avatar,
                gcd,
                gt,
                need_agree,
                name,
                bio,
                avatar,
            ) => {
                let mut gc = GroupChat::new(
                    owner.duplicate(),
                    gcd.duplicate(),
                    gt,
                    name,
                    bio,
                    need_agree,
                    Vec::new(),
                    secs,
                );
                proof {
                    assert(gc@.key_hash =~= Seq::<u8>::empty());
                }
                match gc.insert(db) {
                    Err(_) => {
                        let mut recips: Vec<(GroupId, PeerAddr)> = Vec::new();
                        recips.push((gid.duplicate(), addr.duplicate()));
                        out.push(
                            Outbound::Event(recips, LayerEvent::CreateResult(gcd, false)),
                        );
                        return ;
                    },
                    Ok(_) => {},
                }
                let fid: i64 = gc.id;
                proof {
                    crate::models::lemma_group_index(d1.groups, gcd@);
                    lemma_state_group_push(
                        pre_l,
                        d1,
                        GroupChatV {
                            id: (d1.groups.len() + 1) as i64,
                            owner: owner@,
                            height: 0,
                            g_id: gcd@,
                            g_type: gt,
                            g_name: gc@.g_name,
                            g_bio: gc@.g_bio,
                            is_need_agree: need_agree,
                            key_hash: Seq::<u8>::empty(),
                            is_closed: false,
                            datetime: secs,
                            is_deleted: false,
                        },
                    );
                    assert(db@ =~~= (DbV {
                        groups: d1.groups.push(
                            GroupChatV {
                                id: (d1.groups.len() + 1) as i64,
                                owner: owner@,
                                height: 0,
                                g_id: gcd@,
                                g_type: gt,
                                g_name: gc@.g_name,
                                g_bio: gc@.g_bio,
                                is_need_agree: need_agree,
                                key_hash: Seq::<u8>::empty(),
                                is_closed: false,
                                datetime: secs,
                                is_deleted: false,
                            },
                        ),
                        ..d1
                    }));
                }
                let ghost d2 = db@;
                blobs.write_avatar(&gcd, &gcd, &avatar);
                let mut mem = Member::new(
                    fid,
                    owner.duplicate(),
                    addr.duplicate(),
                    owner_name,
                    true,
                    secs,
                );
                proof {
                    crate::models::lemma_member_index(d2.members, fid, owner@);
                    if member_index(d2.members, fid, owner@) >= 0 {
                        let x = member_index(d2.members, fid, owner@);
                        assert(1 <= d2.members[x].fid <= pre_d.groups.len());
                        assert(false);
                    }
                }
                mem.insert(db);
                let memid: i64 = mem.id;
                proof {
                    lemma_state_member_upsert(pre_l, d2, mem@);
                    assert(db@ =~~= (DbV {
                        members: d2.members.push(MemberV { id: memid, ..mem@ }),
                        ..d2
                    }));
                }
                let ghost d3 = db@;
                blobs.write_avatar(&gcd, &owner, &owner_avatar);
                // Spend one creation on the stored row; only the row id
                // matters to the decrement.
                let spender = Manager {
                    id: mrow_id,
                    gid: gid.duplicate(),
                    times: 0,
                    is_closed: false,
                    datetime: secs,
                    is_deleted: false,
                };
                spender.reduce(db);
                proof {
                    let x = ManagerV {
                        times: crate::models::spend_one(d3.managers[mrow].times),
                        ..d3.managers[mrow]
                    };
                    assert(db@ =~~= (DbV { managers: d3.managers.update(mrow, x), ..d3 }));
                    lemma_state_same_link(pre_l, d3, db@);
                }
                let ghost d4 = db@;
                proof {
                    // The new group cannot already be served: every served
                    // group names an older row's identity.
                    assert forall|k: int| 0 <= k < pre_l.len() implies (
                    #[trigger] pre_l[k]).gcd != gcd@ by {
                        assert(pre_l[k].gcd == pre_d.groups[pre_l[k].fid - 1].g_id);
                        assert(d1.groups[pre_l[k].fid - 1] == pre_d.groups[pre_l[k].fid - 1]);
                        crate::models::lemma_group_index(d1.groups, gcd@);
                    }
                    lemma_pres_index(pre_l, gcd@);
                    if pres_index(pre_l, gcd@) >= 0 {
                        assert(false);
                    }
                }
                self.create_group(fid, gcd.duplicate(), owner.duplicate(), addr.duplicate());
                proof {
                    // The fresh presence entry mirrors the fresh rows.
                    assert forall|k: int| 0 <= k < self@.len() implies {
                        let p = #[trigger] self@[k];
                        &&& 1 <= p.fid <= d4.groups.len()
                        &&& d4.groups[p.fid - 1].g_id == p.gcd
                        &&& d4.groups[p.fid - 1].height == p.height
                    } by {
                        if k < pre_l.len() {
                            assert(self@[k] == pre_l[k]);
                            assert(d4.groups[pre_l[k].fid - 1] == pre_d.groups[pre_l[k].fid - 1]);
                        } else {
                            assert(d4.groups[fid - 1].g_id == gcd@);
                            assert(d4.groups[fid - 1].height == 0);
                        }
                    }
                    assert forall|k: int, i: int|
                        0 <= k < self@.len() && 0 <= i < (#[trigger] self@[k]).onlines.len()
                        implies {
                        let mj = member_index(d4.members, self@[k].fid, (
                        #[trigger] self@[k].onlines[i]).m_id);
                        mj >= 0 && !d4.members[mj].is_deleted
                    } by {
                        if k < pre_l.len() {
                            assert(self@[k] == pre_l[k]);
                            let key_fid = pre_l[k].fid;
                            let key_mid = pre_l[k].onlines[i].m_id;
                            crate::models::lemma_member_index(pre_d.members, key_fid, key_mid);
                            crate::models::lemma_member_index_push(
                                pre_d.members,
                                MemberV { id: memid, ..mem@ },
                                key_fid,
                                key_mid,
                            );
                            let mj = member_index(pre_d.members, key_fid, key_mid);
                            assert(d4.members[mj] == pre_d.members[mj]);
                        } else {
                            assert(self@[k].onlines[i].m_id == owner@);
                            assert(d4.members[d4.members.len() - 1].fid == fid);
                            assert(d4.members[d4.members.len() - 1].m_id == owner@);
                            crate::models::lemma_member_index_prefix(
                                d4.members,
                                fid,
                                owner@,
                                d4.members.len() as int - 1,
                            );
                        }
                    }
                    assert(wf_state(self@, d4));
                    lemma_pres_index_prefix(self@, gcd@, pre_l.len() as int);
                }
                let h: i64 = match self.add_height(db, &gcd, memid, ConsensusType::MemberJoin) {
                    Ok(h) => h,
                    Err(_) => {
                        proof {
                            assert(false);
                        }
                        return ;
                    },
                };
                let mut recips: Vec<(GroupId, PeerAddr)> = Vec::new();
                recips.push((gid.duplicate(), addr.duplicate()));
                out.push(Outbound::Event(recips, LayerEvent::CreateResult(gcd, true)));
            },
        }
    }

    /// Handles one pushed layer event from a peer: the push half of the
    /// protocol state machine.  Reserved variants and the reply variants
    /// that only a server sends are ignored.
    pub fn handle_event(
        &mut self,
        db: &mut Db,
        blobs: &mut Blobs,
        gid: &GroupId,
        addr: &PeerAddr,
        event: LayerEvent,
        now_ms: u64,
    ) -> (r: Result<Vec<Outbound>, ServerError>)
        requires
            wf_state(old(self)@, old(db)@),
            db_has_room(old(db)@),
        ensures
            wf_state(final(self)@, final(db)@),
            event_post(
                old(self)@,
                old(db)@,
                old(blobs)@,
                gid@,
                addr@,
                event,
                now_ms,
                final(self)@,
                final(db)@,
                final(blobs)@,
                r,
            ),
    {
        let mut out: Vec<Outbound> = Vec::new();
        match event {
            LayerEvent::Offline(gcd) => {
                self.handle_offline(gid, &gcd, &mut out);
                proof {
                    let pi = pres_index(old(self)@, gcd@);
                    lemma_pres_index(old(self)@, gcd@);
                    if pi >= 0 {
                        let oi = online_index(old(self)@[pi].onlines, gid@);
                        lemma_online_index(old(self)@[pi].onlines, gid@);
                        if oi >= 0 {
                            lemma_state_roster_remove(old(self)@, db@, pi, oi);
                        }
                    }
                }
                Ok(out)
            },
            LayerEvent::Check => {
                self.handle_check(db, gid, addr, &mut out);
                Ok(out)
            },
            LayerEvent::Create(info, _proof) => {
                self.handle_create(db, blobs, gid, addr, info, now_ms, &mut out);
                Ok(out)
            },
            LayerEvent::Request(gcd, join_proof) => {
                match self.handle_request(db, blobs, gid, addr, &gcd, join_proof, now_ms, &mut out)
                {
                    Ok(_) => Ok(out),
                    Err(e) => Err(e),
                }
            },
            LayerEvent::RequestResult(gcd, rid, okf) => {
                match self.handle_request_result(db, blobs, gid, &gcd, rid, okf, &mut out) {
                    Ok(_) => Ok(out),
                    Err(e) => Err(e),
                }
            },
            LayerEvent::Sync(gcd, _, ev) => {
                match self.handle_sync(db, blobs, gid, &gcd, ev, now_ms, &mut out) {
                    Ok(_) => Ok(out),
                    Err(e) => Err(e),
                }
            },
            LayerEvent::SyncReq(gcd, from) => {
                match self.handle_sync_req(db, blobs, gid, addr, &gcd, from, &mut out) {
                    Ok(_) => Ok(out),
                    Err(e) => Err(e),
                }
            },
            LayerEvent::MemberOnlineSync(gcd) => {
                self.handle_member_online_sync(gid, addr, &gcd, &mut out);
                Ok(out)
            },
            LayerEvent::Suspend(_) => Ok(out),
            LayerEvent::Actived(_) => Ok(out),
            LayerEvent::CheckResult(_, _, _, _) => Ok(out),
            LayerEvent::CreateResult(_, _) => Ok(out),
            LayerEvent::RequestHandle(_, _, _, _, _, _) => Ok(out),
            LayerEvent::Agree(_, _) => Ok(out),
            LayerEvent::Reject(_, _) => Ok(out),
            LayerEvent::MemberOnline(_, _, _) => Ok(out),
            LayerEvent::MemberOffline(_, _) => Ok(out),
            LayerEvent::MemberOnlineSyncResult(_, _) => Ok(out),
            LayerEvent::Packed(_, _, _, _, _) => Ok(out),
        }
    }

    /// Handles one transport message: the layer's single entry point.
    /// Connect attempts are answered directly, a vanished link takes its
    /// address offline everywhere, and pushed events go through the event
    /// machine.
    pub fn handle(
        &mut self,
        db: &mut Db,
        blobs: &mut Blobs,
        gid: &GroupId,
        msg: RecvMsg,
        now_ms: u64,
    ) -> (r: Result<Vec<Outbound>, ServerError>)
        requires
            wf_state(old(self)@, old(db)@),
            db_has_room(old(db)@),
        ensures
            wf_state(final(self)@, final(db)@),
            ({
                let pre_l = old(self)@;
                let pre_d = old(db)@;
                let pre_b = old(blobs)@;
                let post_l = final(self)@;
                let post_d = final(db)@;
                let post_b = final(blobs)@;
                let unchanged = post_l == pre_l && post_d == pre_d && post_b == pre_b;
                match msg {
                    RecvMsg::Connect(addr, lc) => {
                        &&& post_d == pre_d && post_b == pre_b
                        &&& (lc matches LayerConnect(gcd, ConnectProof::Common(_)) ==> r matches Ok(
                            out,
                        ) && connect_post(pre_l, pre_d, gid@, addr@, gcd@, post_l, out@))
                        &&& (lc matches LayerConnect(_, ConnectProof::Zkp(_)) ==> r matches Ok(out)
                            && post_l == pre_l && out@.len() == 0)
                    },
                    RecvMsg::Leave(addr) => r matches Ok(out) && post_d == pre_d && post_b == pre_b
                        && leave_post(pre_l, addr@, post_l, out@),
                    RecvMsg::Event(addr, event) => event_post(
                        pre_l,
                        pre_d,
                        pre_b,
                        gid@,
                        addr@,
                        event,
                        now_ms,
                        post_l,
                        post_d,
                        post_b,
                        r,
                    ),
                }
            }),
    {
        match msg {
            RecvMsg::Connect(addr, lc) => {
                let LayerConnect(gcd, connect) = lc;
                let mut out: Vec<Outbound> = Vec::new();
                match connect {
                    ConnectProof::Common(_proof) => {
                        self.handle_connect(db, gid, addr, &gcd, &mut out);
                        Ok(out)
                    },
                    ConnectProof::Zkp(_proof) => Ok(out),
                }
            },
            RecvMsg::Leave(addr) => {
                let mut out: Vec<Outbound> = Vec::new();
                self.handle_leave(db, &addr, &mut out);
                Ok(out)
            },
            RecvMsg::Event(addr, event) => self.handle_event(db, blobs, gid, &addr, event, now_ms),
        }
    }

    /// The roster of a served group.
    pub fn groups<'a>(&'a self, gid: &GroupId) -> (r: Result<&'a Vec<OnlineMember>, ServerError>)
        ensures
            ({
                let pi = pres_index(self@, gid@);
                match r {
                    Ok(os) => pi >= 0 && os@.map_values(|o: OnlineMember| o@)
                        == self@[pi].onlines,
                    Err(e) => pi < 0 && e == ServerError::NotFound,
                }
            }),
    {
        match self.find_group(gid) {
            Some(i) => Ok(&self.groups[i].onlines),
            Option::None => Err(ServerError::NotFound),
        }
    }

    /// The online members of a served group, as `(identity, address)`
    /// pairs.
    pub fn onlines(&self, gid: &GroupId) -> (r: Result<Vec<(GroupId, PeerAddr)>, ServerError>)
        ensures
            ({
                let pi = pres_index(self@, gid@);
                match r {
                    Ok(rs) => pi >= 0 && recips_match(rs@, self@[pi].onlines),
                    Err(e) => pi < 0 && e == ServerError::NotFound,
                }
            }),
    {
        match self.find_group(gid) {
            Some(i) => Ok(recipients_of(&self.groups[i].onlines)),
            Option::None => Err(ServerError::NotFound),
        }
    }
}

/// The presence index depends only on the group identities, which roster
/// or height updates do not touch.
pub proof fn lemma_pres_index_same_gcds(l1: Seq<PresenceGroupV>, l2: Seq<PresenceGroupV>, gcd: Seq<u8>)
    requires
        l1.len() == l2.len(),
        forall|j: int| 0 <= j < l1.len() ==> (#[trigger] l1[j]).gcd == (#[trigger] l2[j]).gcd,
    ensures
        pres_index(l1, gcd) == pres_index(l2, gcd),
    decreases l1.len(),
{
    if l1.len() > 0 {
        assert(l1[0].gcd == l2[0].gcd);
        assert forall|j: int| 0 <= j < l1.skip(1).len() implies (#[trigger] l1.skip(1)[j]).gcd == (
        #[trigger] l2.skip(1)[j]).gcd by {
            assert(l1.skip(1)[j] == l1[j + 1]);
            assert(l2.skip(1)[j] == l2[j + 1]);
        }
        lemma_pres_index_same_gcds(l1.skip(1), l2.skip(1), gcd);
    }
}

/// Whether a recipient list is exactly one peer.
pub open spec fn solo_recip(rs: Seq<(GroupId, PeerAddr)>, to: Seq<u8>, addr: Seq<u8>) -> bool {
    rs.len() == 1 && rs[0].0@ == to && rs[0].1@ == addr
}

/// The group kinds this provider serves.
pub open spec fn supported_kinds() -> Seq<GroupType> {
    seq![GroupType::Encrypted, GroupType::Private, GroupType::Open]
}

/// The verdict and remaining-creations count the check policy answers:
/// read from the live manager row when there is one, otherwise decided by
/// the permissionless switch.
pub open spec fn check_verdict(d: DbV, gid: Seq<u8>) -> (CheckType, i64) {
    let mi = manager_index(d.managers, gid);
    if mi >= 0 && !d.managers[mi].is_deleted {
        let m = d.managers[mi];
        if m.is_closed {
            (CheckType::Suspend, m.times as i64)
        } else if m.times > 0 {
            (CheckType::Allow, m.times as i64)
        } else {
            (CheckType::Exhausted, 0)
        }
    } else if crate::PERMISSIONLESS {
        (CheckType::Allow, crate::DEFAULT_REMAIN as i64)
    } else {
        (CheckType::Deny, 0)
    }
}

/// What handling `Offline` leaves behind: an online sender is dropped from
/// the roster and the remaining roster hears `MemberOffline`; anything
/// else changes nothing.
pub open spec fn offline_post(
    pre_l: Seq<PresenceGroupV>,
    gid: Seq<u8>,
    gcd: Seq<u8>,
    post_l: Seq<PresenceGroupV>,
    out: Seq<Outbound>,
) -> bool {
    let pi = pres_index(pre_l, gcd);
    if pi < 0 || online_index(pre_l[pi].onlines, gid) < 0 {
        post_l == pre_l && out.len() == 0
    } else {
        let oi = online_index(pre_l[pi].onlines, gid);
        let os2 = pre_l[pi].onlines.remove(oi);
        &&& post_l == pre_l.update(pi, PresenceGroupV { onlines: os2, ..pre_l[pi] })
        &&& out.len() == 1
        &&& (out[0] matches Outbound::Event(rs, LayerEvent::MemberOffline(g, m)) && g@ == gcd && m@
            == gid && recips_match(rs@, os2))
    }
}

/// What handling `Check` answers: one `CheckResult` back to the sender,
/// with the policy's verdict, the provider name and the supported kinds.
pub open spec fn check_post(
    d: DbV,
    gid: Seq<u8>,
    addr: Seq<u8>,
    out: Seq<Outbound>,
) -> bool {
    &&& out.len() == 1
    &&& (out[0] matches Outbound::Event(rs, LayerEvent::CheckResult(t, name, remain, sup)) && {
        &&& solo_recip(rs@, gid, addr)
        &&& (t, remain) == check_verdict(d, gid)
        &&& name@ == crate::NAME@
        &&& sup@ == supported_kinds()
    })
}

/// What handling `MemberOnlineSync` answers: the roster as `(identity,
/// address)` pairs, back to an online sender; nothing to anyone else.
pub open spec fn member_online_sync_post(
    l: Seq<PresenceGroupV>,
    gid: Seq<u8>,
    addr: Seq<u8>,
    gcd: Seq<u8>,
    out: Seq<Outbound>,
) -> bool {
    let pi = pres_index(l, gcd);
    if pi < 0 || online_index(l[pi].onlines, gid) < 0 {
        out.len() == 0
    } else {
        &&& out.len() == 1
        &&& (out[0] matches Outbound::Event(rs, LayerEvent::MemberOnlineSyncResult(g, pairs)) && {
            &&& solo_recip(rs@, gid, addr)
            &&& g@ == gcd
            &&& recips_match(pairs@, l[pi].onlines)
        })
    }
}

/// Affected-group counts grow along the prefix order.
proof fn lemma_count_affected_mono(l: Seq<PresenceGroupV>, addr: Seq<u8>, a: int, b: int)
    requires
        0 <= a <= b <= l.len(),
    ensures
        0 <= count_affected(l.take(a), addr) <= count_affected(l.take(b), addr),
    decreases b - a,
{
    if a == b {
        lemma_count_affected_nonneg(l.take(a), addr);
    } else {
        lemma_count_affected_mono(l, addr, a, b - 1);
        assert(l.take(b).drop_last() =~= l.take(b - 1));
    }
}

/// An affected-group count is never negative.
proof fn lemma_count_affected_nonneg(l: Seq<PresenceGroupV>, addr: Seq<u8>)
    ensures
        count_affected(l, addr) >= 0,
    decreases l.len(),
{
    if l.len() > 0 {
        lemma_count_affected_nonneg(l.drop_last(), addr);
    }
}

/// The roster a `Leave` from an address leaves behind: the first entry
/// recorded at the address goes, everything else stays.
pub open spec fn leave_roster(os: Seq<OnlineMemberV>, addr: Seq<u8>) -> Seq<OnlineMemberV> {
    let ai = addr_index(os, addr);
    if ai < 0 {
        os
    } else {
        os.remove(ai)
    }
}

/// How many served groups have the address online.
pub open spec fn count_affected(l: Seq<PresenceGroupV>, addr: Seq<u8>) -> int
    decreases l.len(),
{
    if l.len() == 0 {
        0
    } else {
        count_affected(l.drop_last(), addr) + if addr_index(l.last().onlines, addr) >= 0 {
            1int
        } else {
            0int
        }
    }
}

/// What a transport `Leave` does: in every group where the address is
/// online, the member leaves the roster and the remaining roster hears
/// `MemberOffline`, group by group in serving order.
pub open spec fn leave_post(
    pre_l: Seq<PresenceGroupV>,
    addr: Seq<u8>,
    post_l: Seq<PresenceGroupV>,
    out: Seq<Outbound>,
) -> bool {
    &&& post_l.len() == pre_l.len()
    &&& forall|k: int|
        0 <= k < pre_l.len() ==> (#[trigger] post_l[k]) == (PresenceGroupV {
            onlines: leave_roster(pre_l[k].onlines, addr),
            ..pre_l[k]
        })
    &&& out.len() == count_affected(pre_l, addr)
    &&& forall|k: int|
        0 <= k < pre_l.len() && addr_index((#[trigger] pre_l[k]).onlines, addr) >= 0 ==> (out[
            count_affected(pre_l.take(k), addr)] matches Outbound::Event(
            rs,
            LayerEvent::MemberOffline(g, m),
        ) && g@ == pre_l[k].gcd && m@ == pre_l[k].onlines[addr_index(pre_l[k].onlines, addr)].m_id
            && recips_match(rs@, leave_roster(pre_l[k].onlines, addr)))
}

/// What handling a `Connect` with a common credential answers: an unknown
/// group or a non-member gets an unsuccessful result; a member comes
/// online (its address refreshed in place), receives the group's height,
/// and the whole roster hears `MemberOnline`.
pub open spec fn connect_post(
    pre_l: Seq<PresenceGroupV>,
    d: DbV,
    gid: Seq<u8>,
    addr: Seq<u8>,
    gcd: Seq<u8>,
    post_l: Seq<PresenceGroupV>,
    out: Seq<Outbound>,
) -> bool {
    let pi = pres_index(pre_l, gcd);
    if pi < 0 {
        &&& post_l == pre_l
        &&& out.len() == 1
        &&& (out[0] matches Outbound::Result(g, a, ok, p) && g@ == gid && a@ == addr && !ok
            && p is None)
    } else {
        let fid = pre_l[pi].fid;
        let mi = member_index(d.members, fid, gid);
        if mi >= 0 && !d.members[mi].is_deleted {
            let os = pre_l[pi].onlines;
            let oi = online_index(os, gid);
            let os2 = if oi >= 0 {
                os.update(oi, OnlineMemberV { m_addr: addr, ..os[oi] })
            } else {
                os.push(OnlineMemberV { m_id: gid, m_addr: addr, is_manager: false })
            };
            &&& post_l == pre_l.update(pi, PresenceGroupV { onlines: os2, ..pre_l[pi] })
            &&& out.len() == 2
            &&& (out[0] matches Outbound::Result(g, a, ok, p) && g@ == gid && a@ == addr && ok && (
            p matches Some(lr) && lr.0@ == gcd && lr.1 == pre_l[pi].height))
            &&& (out[1] matches Outbound::Event(rs, LayerEvent::MemberOnline(g, m, ad)) && g@
                == gcd && m@ == gid && ad@ == addr && recips_match(rs@, os2))
        } else {
            &&& post_l == pre_l
            &&& out.len() == 1
            &&& (out[0] matches Outbound::Result(g, a, ok, p) && g@ == gid && a@ == addr && !ok
                && p is None)
        }
    }
}

/// What answering a `SyncReq` does: nothing for an offline sender, an
/// unserved group or a window at or past the height; otherwise one
/// `Packed` envelope with exactly the log rows from the requested height
/// up to the cap — owed whenever every stored message in the window still
/// decodes, and failed with `Storage` exactly when one does not.
pub open spec fn sync_req_post(
    l: Seq<PresenceGroupV>,
    d: DbV,
    b: Map<(Seq<u8>, BlobDir, Seq<char>), Seq<u8>>,
    gid: Seq<u8>,
    addr: Seq<u8>,
    gcd: Seq<u8>,
    from: i64,
    out: Seq<Outbound>,
    r: Result<(), ServerError>,
) -> bool {
    let pi = pres_index(l, gcd);
    if pi < 0 || online_index(l[pi].onlines, gid) < 0 || from < 0 || from >= l[pi].height {
        out.len() == 0 && r is Ok
    } else {
        let h = l[pi].height;
        let fid = l[pi].fid;
        let to: i64 = if h - from > crate::SYNC_WINDOW {
            (from + crate::SYNC_WINDOW) as i64
        } else {
            h
        };
        if !crate::consensus::window_ok(d, fid, from, to) {
            out.len() == 0 && r == Err::<(), ServerError>(ServerError::Storage)
        } else {
            &&& r is Ok
            &&& out.len() == 1
            &&& (out[0] matches Outbound::Event(rs, LayerEvent::Packed(g, ch, f, t, evs)) && {
                &&& solo_recip(rs@, gid, addr)
                &&& g@ == gcd
                &&& ch == h
                &&& f == from
                &&& t == to
                &&& evs@.len() == to - from
                &&& forall|k: int|
                    0 <= k < evs@.len() ==> (#[trigger] evs@[k])@ == crate::consensus::packed_of(
                        d,
                        b,
                        gcd,
                        d.consensus[consensus_index(d.consensus, fid, (from + 1 + k) as i64)],
                    )
            })
        }
    }
}

/// The pointer and log kind one sync event applies as, given the id of
/// the row it touched.
pub open spec fn sync_apply_kind(ev: Event) -> ConsensusType {
    match ev {
        Event::GroupInfo => ConsensusType::GroupInfo,
        Event::GroupTransfer => ConsensusType::GroupTransfer,
        Event::GroupManagerAdd => ConsensusType::GroupManagerAdd,
        Event::GroupManagerDel => ConsensusType::GroupManagerDel,
        Event::GroupClose => ConsensusType::GroupClose,
        Event::MemberInfo(_, _, _, _) => ConsensusType::MemberInfo,
        Event::MemberJoin(_, _, _, _, _) => ConsensusType::MemberJoin,
        Event::MemberLeave(_) => ConsensusType::MemberLeave,
        Event::MessageCreate(_, _, _) => ConsensusType::MessageCreate,
    }
}

/// The tables after one height step on top of `d`.
pub open spec fn height_step(d: DbV, fid: i64, h: i64, ctype: ConsensusType, cid: i64) -> DbV {
    DbV {
        groups: d.groups.update(fid - 1, GroupChatV { height: h, ..d.groups[fid - 1] }),
        consensus: d.consensus.push(
            Consensus { id: (d.consensus.len() + 1) as i64, fid, height: h, ctype, cid },
        ),
        ..d
    }
}

/// Whether `out` is exactly one broadcast of `Sync(gcd, h, ev)` to the
/// given roster.
pub open spec fn sync_broadcast(
    out: Seq<Outbound>,
    roster: Seq<OnlineMemberV>,
    gcd: Seq<u8>,
    h: i64,
    ev: Event,
) -> bool {
    &&& out.len() == 1
    &&& (out[0] matches Outbound::Event(rs, LayerEvent::Sync(g, hh, e)) && g@ == gcd && hh == h
        && e == ev && recips_match(rs@, roster))
}

/// What handling a `Sync` does: an online sender's admissible event is
/// applied to the tables, logged at the next height, and the whole roster
/// — the sender included — hears the fully applied event at that height.
pub open spec fn sync_post(
    pre_l: Seq<PresenceGroupV>,
    pre_d: DbV,
    pre_b: Map<(Seq<u8>, BlobDir, Seq<char>), Seq<u8>>,
    gid: Seq<u8>,
    gcd: Seq<u8>,
    ev: Event,
    now_ms: u64,
    post_l: Seq<PresenceGroupV>,
    post_d: DbV,
    post_b: Map<(Seq<u8>, BlobDir, Seq<char>), Seq<u8>>,
    out: Seq<Outbound>,
    r: Result<(), ServerError>,
) -> bool {
    let pi = pres_index(pre_l, gcd);
    let unchanged = post_l == pre_l && post_d == pre_d && post_b == pre_b;
    if pi < 0 || online_index(pre_l[pi].onlines, gid) < 0 {
        unchanged && out.len() == 0 && r is Ok
    } else {
        let fid = pre_l[pi].fid;
        let h = (pre_l[pi].height + 1) as i64;
        let bumped = pre_l.update(pi, PresenceGroupV { height: h, ..pre_l[pi] });
        match ev {
            Event::MemberJoin(_, _, _, _, _) => unchanged && out.len() == 0 && r is Ok,
            Event::MemberInfo(mid, _, _, _) => {
                let mi = member_index(pre_d.members, fid, mid@);
                if mi < 0 || pre_d.members[mi].is_deleted {
                    unchanged && out.len() == 0 && r == Err::<(), ServerError>(
                        ServerError::NotFound,
                    )
                } else {
                    &&& r is Ok
                    &&& post_l == bumped
                    &&& post_d == height_step(
                        pre_d,
                        fid,
                        h,
                        ConsensusType::MemberInfo,
                        pre_d.members[mi].id,
                    )
                    &&& post_b == pre_b
                    &&& sync_broadcast(out, pre_l[pi].onlines, gcd, h, ev)
                }
            },
            Event::MemberLeave(mid) => {
                let mi = member_index(pre_d.members, fid, mid@);
                if mi < 0 || pre_d.members[mi].is_deleted {
                    unchanged && out.len() == 0 && r == Err::<(), ServerError>(
                        ServerError::NotFound,
                    )
                } else {
                    let oi = online_index(pre_l[pi].onlines, mid@);
                    let os2 = if oi >= 0 {
                        pre_l[pi].onlines.remove(oi)
                    } else {
                        pre_l[pi].onlines
                    };
                    let d1 = DbV {
                        members: pre_d.members.update(
                            mi,
                            MemberV { is_deleted: true, ..pre_d.members[mi] },
                        ),
                        ..pre_d
                    };
                    &&& r is Ok
                    &&& post_l == pre_l.update(
                        pi,
                        PresenceGroupV { height: h, onlines: os2, ..pre_l[pi] },
                    )
                    &&& post_d == height_step(
                        d1,
                        fid,
                        h,
                        ConsensusType::MemberLeave,
                        pre_d.members[mi].id,
                    )
                    &&& post_b == pre_b.remove((gcd, BlobDir::Avatars, avatar_name(mid@)))
                    &&& sync_broadcast(out, pre_l[pi].onlines, gcd, h, ev)
                }
            },
            Event::MessageCreate(mid, pm, _) => {
                let mi = member_index(pre_d.members, fid, mid@);
                let live = mi >= 0 && !pre_d.members[mi].is_deleted;
                match r {
                    Err(e) => {
                        &&& unchanged
                        &&& out.len() == 0
                        &&& (e == ServerError::NotFound <==> !live)
                        &&& (e == ServerError::Storage <==> live && (pm@ matches
                            NetworkMessageV::Image(ib) && crate::blobs::image_width_spec(ib) is None))
                    },
                    Ok(_) => {
                        let row = post_d.messages.last();
                        &&& live
                        &&& post_d == height_step(
                            DbV { messages: pre_d.messages.push(row), ..pre_d },
                            fid,
                            h,
                            ConsensusType::MessageCreate,
                            row.id,
                        )
                        &&& row.id == pre_d.messages.len() + 1
                        &&& row.fid == fid
                        &&& row.mid == pre_d.members[mi].id
                        &&& row.datetime == (now_ms / 1000) as i64
                        &&& (ev matches Event::MessageCreate(_, m, _) && row.m_type
                            == crate::message::msg_type_of(m@) && crate::message::encoded_content(
                            m@,
                            fid,
                            now_ms,
                            row.m_content,
                            row.m_content,
                        ) && post_b == crate::message::encoded_blobs(
                            pre_b,
                            gcd,
                            fid,
                            now_ms,
                            m@,
                            row.m_content,
                        ))
                        &&& post_l == bumped
                        &&& sync_broadcast(out, pre_l[pi].onlines, gcd, h, ev)
                    },
                }
            },
            _ => {
                &&& r is Ok
                &&& post_l == bumped
                &&& post_d == height_step(pre_d, fid, h, sync_apply_kind(ev), 0)
                &&& post_b == pre_b
                &&& sync_broadcast(out, pre_l[pi].onlines, gcd, h, ev)
            },
        }
    }
}

/// What admitting a member into a served group leaves behind: the member
/// row upserted, its avatar stored, the member online, the join logged at
/// the next height, and the whole roster hearing the join.
pub open spec fn admit_post(
    pre_l: Seq<PresenceGroupV>,
    pre_d: DbV,
    pre_b: Map<(Seq<u8>, BlobDir, Seq<char>), Seq<u8>>,
    gcd: Seq<u8>,
    row: MemberV,
    avatar: Seq<u8>,
    post_l: Seq<PresenceGroupV>,
    post_d: DbV,
    post_b: Map<(Seq<u8>, BlobDir, Seq<char>), Seq<u8>>,
    added: Seq<Outbound>,
) -> bool {
    let pi = pres_index(pre_l, gcd);
    let fid = pre_l[pi].fid;
    let ms2 = crate::models::member_upsert(pre_d.members, row);
    let mid = crate::models::member_upsert_id(pre_d.members, row);
    let d1 = DbV { members: ms2, ..pre_d };
    let b1 = if avatar.len() == 0 {
        pre_b
    } else {
        pre_b.insert((gcd, BlobDir::Avatars, avatar_name(row.m_id)), avatar)
    };
    let os = pre_l[pi].onlines;
    let oi = online_index(os, row.m_id);
    let os2 = if oi >= 0 {
        os.update(oi, OnlineMemberV { m_addr: row.m_addr, ..os[oi] })
    } else {
        os.push(OnlineMemberV { m_id: row.m_id, m_addr: row.m_addr, is_manager: false })
    };
    let h = (pre_l[pi].height + 1) as i64;
    &&& post_d == height_step(d1, fid, h, ConsensusType::MemberJoin, mid)
    &&& post_b == b1
    &&& post_l == pre_l.update(pi, PresenceGroupV { height: h, onlines: os2, ..pre_l[pi] })
    &&& added.len() == 1
    &&& (added[0] matches Outbound::Event(
        rs,
        LayerEvent::Sync(g, hh, Event::MemberJoin(m, a, n, av, t)),
    ) && g@ == gcd && hh == h && m@ == row.m_id && a@ == row.m_addr && n@ == row.m_name && av@
        == avatar && t == row.datetime && recips_match(rs@, os2))
}

/// Whether one outbound is a solo `Reject` to the given peer.
pub open spec fn is_reject(o: Outbound, to: Seq<u8>, addr: Seq<u8>, gcd: Seq<u8>, lost: bool) -> bool {
    o matches Outbound::Event(rs, LayerEvent::Reject(g, lo)) && solo_recip(rs@, to, addr) && g@
        == gcd && lo == lost
}

/// Whether one outbound is a solo `Agree` to the given peer carrying the
/// group's description with its avatar from the given store.
pub open spec fn is_agree(
    o: Outbound,
    to: Seq<u8>,
    addr: Seq<u8>,
    gcd: Seq<u8>,
    grp: GroupChatV,
    b: Map<(Seq<u8>, BlobDir, Seq<char>), Seq<u8>>,
) -> bool {
    o matches Outbound::Event(rs, LayerEvent::Agree(g, gi)) && solo_recip(rs@, to, addr) && g@
        == gcd && (gi matches GroupInfo::Common(ow, on, oa, gg, gt, na, nm, bi, av) && ow@
        == grp.owner && on@ == Seq::<char>::empty() && oa@ == Seq::<u8>::empty() && gg@ == grp.g_id
        && gt == grp.g_type && na == grp.is_need_agree && nm@ == grp.g_name && bi@ == grp.g_bio
        && av@ == blob_lookup(b, gcd, BlobDir::Avatars, avatar_name(gcd)))
}

/// The presence roster after one member comes online at an address.
pub open spec fn roster_with(os: Seq<OnlineMemberV>, m_id: Seq<u8>, addr: Seq<u8>) -> Seq<
    OnlineMemberV,
> {
    let oi = online_index(os, m_id);
    if oi >= 0 {
        os.update(oi, OnlineMemberV { m_addr: addr, ..os[oi] })
    } else {
        os.push(OnlineMemberV { m_id, m_addr: addr, is_manager: false })
    }
}

/// What handling a join `Request` does, for each of the join paths.
pub open spec fn request_post(
    pre_l: Seq<PresenceGroupV>,
    pre_d: DbV,
    pre_b: Map<(Seq<u8>, BlobDir, Seq<char>), Seq<u8>>,
    gid: Seq<u8>,
    addr: Seq<u8>,
    gcd: Seq<u8>,
    jp: JoinProof,
    now_ms: u64,
    post_l: Seq<PresenceGroupV>,
    post_d: DbV,
    post_b: Map<(Seq<u8>, BlobDir, Seq<char>), Seq<u8>>,
    out: Seq<Outbound>,
    r: Result<(), ServerError>,
) -> bool {
    let pi = pres_index(pre_l, gcd);
    let unchanged = post_l == pre_l && post_d == pre_d && post_b == pre_b;
    let secs = (now_ms / 1000) as i64;
    match jp {
        JoinProof::Zkp(_) => unchanged && out.len() == 0 && r is Ok,
        JoinProof::Open(mname, mavatar) => {
            if pi < 0 {
                unchanged && out.len() == 1 && is_reject(out[0], gid, addr, gcd, true) && r is Ok
            } else {
                let fid = pre_l[pi].fid;
                let grp = pre_d.groups[fid - 1];
                if grp.is_deleted {
                    unchanged && out.len() == 0 && r == Err::<(), ServerError>(
                        ServerError::NotFound,
                    )
                } else {
                    let mi = member_index(pre_d.members, fid, gid);
                    if mi >= 0 && !pre_d.members[mi].is_deleted {
                        &&& post_l == pre_l.update(
                            pi,
                            PresenceGroupV {
                                onlines: roster_with(pre_l[pi].onlines, gid, addr),
                                ..pre_l[pi]
                            },
                        )
                        &&& post_d == pre_d && post_b == pre_b
                        &&& out.len() == 1
                        &&& is_agree(out[0], gid, addr, gcd, grp, pre_b)
                        &&& r is Ok
                    } else if grp.g_type == GroupType::Open {
                        &&& admit_post(
                            pre_l,
                            pre_d,
                            pre_b,
                            gcd,
                            MemberV {
                                id: 0,
                                fid,
                                m_id: gid,
                                m_addr: addr,
                                m_name: mname@,
                                is_manager: false,
                                datetime: secs,
                                is_deleted: false,
                            },
                            mavatar@,
                            post_l,
                            post_d,
                            post_b,
                            out.take(1),
                        )
                        &&& out.len() == 2
                        &&& is_agree(out[1], gid, addr, gcd, grp, post_b)
                        &&& r is Ok
                    } else {
                        unchanged && out.len() == 1 && is_reject(out[0], gid, addr, gcd, false)
                            && r is Ok
                    }
                }
            }
        },
        JoinProof::Invite(inviter, _, mname, mavatar) => {
            if pi < 0 {
                unchanged && out.len() == 1 && is_reject(out[0], gid, addr, gcd, true) && r is Ok
            } else {
                let fid = pre_l[pi].fid;
                let grp = pre_d.groups[fid - 1];
                if grp.is_deleted {
                    unchanged && out.len() == 0 && r == Err::<(), ServerError>(
                        ServerError::NotFound,
                    )
                } else {
                    let mi = member_index(pre_d.members, fid, gid);
                    let vi = member_index(pre_d.members, fid, inviter@);
                    if mi >= 0 && !pre_d.members[mi].is_deleted {
                        &&& post_l == pre_l.update(
                            pi,
                            PresenceGroupV {
                                onlines: roster_with(pre_l[pi].onlines, gid, addr),
                                ..pre_l[pi]
                            },
                        )
                        &&& post_d == pre_d && post_b == pre_b
                        &&& out.len() == 1
                        &&& is_agree(out[0], gid, addr, gcd, grp, pre_b)
                        &&& r is Ok
                    } else if vi < 0 || pre_d.members[vi].is_deleted {
                        unchanged && out.len() == 1 && is_reject(out[0], gid, addr, gcd, true)
                            && r is Ok
                    } else if grp.is_need_agree && !pre_d.members[vi].is_manager {
                        let rid = (pre_d.requests.len() + 1) as i64;
                        &&& post_l == pre_l
                        &&& post_d == (DbV {
                            requests: pre_d.requests.push(
                                RequestV {
                                    id: rid,
                                    fid,
                                    m_id: gid,
                                    m_addr: addr,
                                    m_name: mname@,
                                    datetime: secs,
                                },
                            ),
                            ..pre_d
                        })
                        &&& post_b == pre_b
                        &&& out.len() == 1
                        &&& (out[0] matches Outbound::Event(
                            rs,
                            LayerEvent::RequestHandle(g, m, a, jp2, rr, t),
                        ) && g@ == gcd && m@ == gid && a@ == addr && jp2 == jp && rr == rid && t
                            == secs && manager_recips_match(rs@, pre_l[pi].onlines))
                        &&& r is Ok
                    } else {
                        &&& admit_post(
                            pre_l,
                            pre_d,
                            pre_b,
                            gcd,
                            MemberV {
                                id: 0,
                                fid,
                                m_id: gid,
                                m_addr: addr,
                                m_name: mname@,
                                is_manager: false,
                                datetime: secs,
                                is_deleted: false,
                            },
                            mavatar@,
                            post_l,
                            post_d,
                            post_b,
                            out.take(1),
                        )
                        &&& out.len() == 2
                        &&& is_agree(out[1], gid, addr, gcd, grp, post_b)
                        &&& r is Ok
                    }
                }
            }
        },
    }
}

/// What handling a manager's `RequestResult` does: an approval promotes
/// the request to a member, confirms the joiner and broadcasts the join;
/// a denial tells the joiner; the online managers hear the verdict either
/// way.  Only a live manager-member's verdict counts.
pub open spec fn request_result_post(
    pre_l: Seq<PresenceGroupV>,
    pre_d: DbV,
    pre_b: Map<(Seq<u8>, BlobDir, Seq<char>), Seq<u8>>,
    gid: Seq<u8>,
    gcd: Seq<u8>,
    rid: i64,
    okf: bool,
    post_l: Seq<PresenceGroupV>,
    post_d: DbV,
    post_b: Map<(Seq<u8>, BlobDir, Seq<char>), Seq<u8>>,
    out: Seq<Outbound>,
    r: Result<(), ServerError>,
) -> bool {
    let pi = pres_index(pre_l, gcd);
    let unchanged = post_l == pre_l && post_d == pre_d && post_b == pre_b;
    if pi < 0 {
        unchanged && out.len() == 0 && r == Err::<(), ServerError>(ServerError::NotFound)
    } else {
        let fid = pre_l[pi].fid;
        let si = member_index(pre_d.members, fid, gid);
        if !(si >= 0 && !pre_d.members[si].is_deleted && pre_d.members[si].is_manager) {
            unchanged && out.len() == 0 && r is Ok
        } else if rid < 1 || rid > pre_d.requests.len() {
            unchanged && out.len() == 0 && r == Err::<(), ServerError>(ServerError::NotFound)
        } else {
            let req = pre_d.requests[rid - 1];
            if req.fid != fid {
                &&& unchanged
                &&& out.len() == 1
                &&& (out[0] matches Outbound::Event(rs, LayerEvent::RequestResult(g, rr, o)) && g@
                    == gcd && rr == rid && o == okf && manager_recips_match(
                    rs@,
                    pre_l[pi].onlines,
                ))
                &&& r is Ok
            } else if okf {
                if pre_d.groups[fid - 1].is_deleted {
                    unchanged && out.len() == 0 && r == Err::<(), ServerError>(
                        ServerError::NotFound,
                    )
                } else {
                    let row = MemberV {
                        id: 0,
                        fid,
                        m_id: req.m_id,
                        m_addr: req.m_addr,
                        m_name: req.m_name,
                        is_manager: false,
                        datetime: req.datetime,
                        is_deleted: false,
                    };
                    let avatar = blob_lookup(pre_b, gcd, BlobDir::Avatars, avatar_name(req.m_id));
                    &&& r is Ok
                    &&& out.len() == 3
                    &&& is_agree(out[0], req.m_id, req.m_addr, gcd, pre_d.groups[fid - 1], pre_b)
                    &&& admit_post(
                        pre_l,
                        pre_d,
                        pre_b,
                        gcd,
                        row,
                        avatar,
                        post_l,
                        post_d,
                        post_b,
                        out.subrange(1, 2),
                    )
                    &&& (out[2] matches Outbound::Event(rs, LayerEvent::RequestResult(g, rr, o))
                        && g@ == gcd && rr == rid && o == okf && manager_recips_match(
                        rs@,
                        post_l[pi].onlines,
                    ))
                }
            } else {
                &&& unchanged
                &&& out.len() == 2
                &&& is_reject(out[0], req.m_id, req.m_addr, gcd, true)
                &&& (out[1] matches Outbound::Event(rs, LayerEvent::RequestResult(g, rr, o)) && g@
                    == gcd && rr == rid && o == okf && manager_recips_match(
                    rs@,
                    pre_l[pi].onlines,
                ))
                &&& r is Ok
            }
        }
    }
}

/// What handling a `Create` does: the sender's creation permission is
/// checked — admitting a fresh permissionless manager on demand — and a
/// common group is inserted with its owner as first, online, managing
/// member, its creation logged at height one.  A taken group id, or the
/// reserved encrypted shape, is answered with a failed creation.
pub open spec fn create_post(
    pre_l: Seq<PresenceGroupV>,
    pre_d: DbV,
    pre_b: Map<(Seq<u8>, BlobDir, Seq<char>), Seq<u8>>,
    gid: Seq<u8>,
    addr: Seq<u8>,
    info: GroupInfo,
    now_ms: u64,
    post_l: Seq<PresenceGroupV>,
    post_d: DbV,
    post_b: Map<(Seq<u8>, BlobDir, Seq<char>), Seq<u8>>,
    out: Seq<Outbound>,
) -> bool {
    let secs = (now_ms / 1000) as i64;
    let mi = manager_index(pre_d.managers, gid);
    let has_live = mi >= 0 && !pre_d.managers[mi].is_deleted;
    let unchanged = post_l == pre_l && post_d == pre_d && post_b == pre_b;
    if !has_live && !crate::PERMISSIONLESS {
        &&& unchanged
        &&& out.len() == 1
        &&& (out[0] matches Outbound::Event(rs, LayerEvent::CheckResult(t, nm, re, sup))
            && solo_recip(rs@, gid, addr) && t == CheckType::Deny && nm@ == Seq::<char>::empty()
            && re == 0 && sup@ == Seq::<GroupType>::empty())
    } else {
        // Find or create the manager row, then judge the stored row.
        let d1 = if has_live {
            pre_d
        } else {
            DbV { managers: crate::models::manager_upsert(pre_d.managers, gid, secs), ..pre_d }
        };
        let mrow = if mi >= 0 {
            mi
        } else {
            pre_d.managers.len() as int
        };
        let stored = d1.managers[mrow];
        if stored.is_closed {
            &&& post_l == pre_l && post_d == d1 && post_b == pre_b
            &&& out.len() == 1
            &&& (out[0] matches Outbound::Event(rs, LayerEvent::CheckResult(t, nm, re, sup))
                && solo_recip(rs@, gid, addr) && t == CheckType::Suspend && nm@ == crate::NAME@
                && re == stored.times as i64 && sup@ == supported_kinds())
        } else if stored.times <= 0 {
            &&& post_l == pre_l && post_d == d1 && post_b == pre_b
            &&& out.len() == 1
            &&& (out[0] matches Outbound::Event(rs, LayerEvent::CheckResult(t, nm, re, sup))
                && solo_recip(rs@, gid, addr) && t == CheckType::Exhausted && nm@ == crate::NAME@
                && re == 0 && sup@ == supported_kinds())
        } else {
        match info {
            GroupInfo::Encrypted(_, _, _, g_id, _, _, _, _, _) => {
                &&& post_l == pre_l && post_d == d1 && post_b == pre_b
                &&& out.len() == 1
                &&& (out[0] matches Outbound::Event(rs, LayerEvent::CreateResult(g, okc))
                    && solo_recip(rs@, gid, addr) && g@ == g_id@ && !okc)
            },
            GroupInfo::Common(owner, owner_name, _owner_avatar, gcd, gt, need_agree, name, bio, avatar) => {
                if group_index(d1.groups, gcd@) >= 0 {
                    &&& post_l == pre_l && post_d == d1 && post_b == pre_b
                    &&& out.len() == 1
                    &&& (out[0] matches Outbound::Event(rs, LayerEvent::CreateResult(g, okc))
                        && solo_recip(rs@, gid, addr) && g@ == gcd@ && !okc)
                } else {
                    let fid = (d1.groups.len() + 1) as i64;
                    let memid = (d1.members.len() + 1) as i64;
                    let d2 = DbV {
                        groups: d1.groups.push(
                            GroupChatV {
                                id: fid,
                                owner: owner@,
                                height: 0,
                                g_id: gcd@,
                                g_type: gt,
                                g_name: name@,
                                g_bio: bio@,
                                is_need_agree: need_agree,
                                key_hash: Seq::<u8>::empty(),
                                is_closed: false,
                                datetime: secs,
                                is_deleted: false,
                            },
                        ),
                        ..d1
                    };
                    let b1 = if avatar@.len() == 0 {
                        pre_b
                    } else {
                        pre_b.insert((gcd@, BlobDir::Avatars, avatar_name(gcd@)), avatar@)
                    };
                    let d3 = DbV {
                        members: d2.members.push(
                            MemberV {
                                id: memid,
                                fid,
                                m_id: owner@,
                                m_addr: addr,
                                m_name: owner_name@,
                                is_manager: true,
                                datetime: secs,
                                is_deleted: false,
                            },
                        ),
                        ..d2
                    };
                    let b2 = if _owner_avatar@.len() == 0 {
                        b1
                    } else {
                        b1.insert((gcd@, BlobDir::Avatars, avatar_name(owner@)), _owner_avatar@)
                    };
                    let d4 = DbV {
                        managers: d3.managers.update(
                            mrow,
                            ManagerV {
                                times: crate::models::spend_one(d3.managers[mrow].times),
                                ..d3.managers[mrow]
                            },
                        ),
                        ..d3
                    };
                    let l1 = pre_l.push(
                        PresenceGroupV {
                            gcd: gcd@,
                            onlines: seq![
                                OnlineMemberV { m_id: owner@, m_addr: addr, is_manager: true },
                            ],
                            height: 0,
                            fid,
                        },
                    );
                    &&& post_d == height_step(d4, fid, 1, ConsensusType::MemberJoin, memid)
                    &&& post_b == b2
                    &&& post_l == l1.update(
                        pre_l.len() as int,
                        PresenceGroupV { height: 1, ..l1[pre_l.len() as int] },
                    )
                    &&& out.len() == 1
                    &&& (out[0] matches Outbound::Event(rs, LayerEvent::CreateResult(g, okc))
                        && solo_recip(rs@, gid, addr) && g@ == gcd@ && okc)
                }
            },
        }
        }
    }
}

/// Two entries of a roster with one member refreshed or appended still
/// carry distinct identities.
proof fn lemma_roster_with_ids(os: Seq<OnlineMemberV>, m_id: Seq<u8>, addr: Seq<u8>, a: int, b: int)
    requires
        forall|i: int, j: int|
            0 <= i < j < os.len() ==> (#[trigger] os[i]).m_id != (#[trigger] os[j]).m_id,
        0 <= a < b < roster_with(os, m_id, addr).len(),
    ensures
        roster_with(os, m_id, addr)[a].m_id != roster_with(os, m_id, addr)[b].m_id,
{
    let oi = online_index(os, m_id);
    lemma_online_index(os, m_id);
    let os2 = roster_with(os, m_id, addr);
    if oi >= 0 {
        assert(os2[a].m_id == os[a].m_id && os2[b].m_id == os[b].m_id);
    } else {
        if b < os.len() {
            assert(os2[a].m_id == os[a].m_id && os2[b].m_id == os[b].m_id);
        } else {
            assert(os2[a].m_id == os[a].m_id && os2[b].m_id == m_id);
        }
    }
}

/// What handling one pushed layer event does, for every admissible
/// variant — the one post-relation both entry points promise.
pub open spec fn event_post(
    pre_l: Seq<PresenceGroupV>,
    pre_d: DbV,
    pre_b: Map<(Seq<u8>, BlobDir, Seq<char>), Seq<u8>>,
    gid: Seq<u8>,
    addr: Seq<u8>,
    event: LayerEvent,
    now_ms: u64,
    post_l: Seq<PresenceGroupV>,
    post_d: DbV,
    post_b: Map<(Seq<u8>, BlobDir, Seq<char>), Seq<u8>>,
    r: Result<Vec<Outbound>, ServerError>,
) -> bool {
    let unchanged = post_l == pre_l && post_d == pre_d && post_b == pre_b;
                match event {
                    LayerEvent::Offline(gcd) => r matches Ok(out) && post_d == pre_d && post_b
                        == pre_b && offline_post(pre_l, gid, gcd@, post_l, out@),
                    LayerEvent::Check => r matches Ok(out) && unchanged && check_post(
                        pre_d,
                        gid,
                        addr,
                        out@,
                    ),
                    LayerEvent::Create(info, _) => r matches Ok(out) && create_post(
                        pre_l,
                        pre_d,
                        pre_b,
                        gid,
                        addr,
                        info,
                        now_ms,
                        post_l,
                        post_d,
                        post_b,
                        out@,
                    ),
                    LayerEvent::Request(gcd, jp) => request_post(
                        pre_l,
                        pre_d,
                        pre_b,
                        gid,
                        addr,
                        gcd@,
                        jp,
                        now_ms,
                        post_l,
                        post_d,
                        post_b,
                        (match r {
                            Ok(out) => out@,
                            Err(_) => Seq::empty(),
                        }),
                        (match r {
                            Ok(_) => Ok(()),
                            Err(e) => Err(e),
                        }),
                    ),
                    LayerEvent::RequestResult(gcd, rid, okf) => request_result_post(
                        pre_l,
                        pre_d,
                        pre_b,
                        gid,
                        gcd@,
                        rid,
                        okf,
                        post_l,
                        post_d,
                        post_b,
                        (match r {
                            Ok(out) => out@,
                            Err(_) => Seq::empty(),
                        }),
                        (match r {
                            Ok(_) => Ok(()),
                            Err(e) => Err(e),
                        }),
                    ),
                    LayerEvent::Sync(gcd, _, ev) => sync_post(
                        pre_l,
                        pre_d,
                        pre_b,
                        gid,
                        gcd@,
                        ev,
                        now_ms,
                        post_l,
                        post_d,
                        post_b,
                        (match r {
                            Ok(out) => out@,
                            Err(_) => Seq::empty(),
                        }),
                        (match r {
                            Ok(_) => Ok(()),
                            Err(e) => Err(e),
                        }),
                    ),
                    LayerEvent::SyncReq(gcd, from) => unchanged && sync_req_post(
                        pre_l,
                        pre_d,
                        pre_b,
                        gid,
                        addr,
                        gcd@,
                        from,
                        (match r {
                            Ok(out) => out@,
                            Err(_) => Seq::empty(),
                        }),
                        (match r {
                            Ok(_) => Ok(()),
                            Err(e) => Err(e),
                        }),
                    ),
                    LayerEvent::MemberOnlineSync(gcd) => r matches Ok(out) && unchanged
                        && member_online_sync_post(pre_l, gid, addr, gcd@, out@),
                    _ => r matches Ok(out) && unchanged && out@.len() == 0,
                }
}

/// Soft-deleting a member row no roster names keeps the presence map and
/// the tables agreeing.
proof fn lemma_state_member_leave(l: Seq<PresenceGroupV>, d: DbV, mi: int)
    requires
        wf_state(l, d),
        0 <= mi < d.members.len(),
        forall|k: int|
            0 <= k < l.len() && (#[trigger] l[k]).fid == d.members[mi].fid ==> online_index(
                l[k].onlines,
                d.members[mi].m_id,
            ) < 0,
    ensures
        wf_state(
            l,
            DbV {
                members: d.members.update(mi, MemberV { is_deleted: true, ..d.members[mi] }),
                ..d
            },
        ),
{
    let x = MemberV { is_deleted: true, ..d.members[mi] };
    let d2 = DbV { members: d.members.update(mi, x), ..d };
    crate::models::lemma_wf_member_update(d, mi, x);
    assert forall|k: int, i: int|
        0 <= k < l.len() && 0 <= i < (#[trigger] l[k]).onlines.len() implies {
        let mj = member_index(d2.members, l[k].fid, (#[trigger] l[k].onlines[i]).m_id);
        mj >= 0 && !d2.members[mj].is_deleted
    } by {
        let key_fid = l[k].fid;
        let key_mid = l[k].onlines[i].m_id;
        lemma_member_index_same_keys(d.members, d2.members, key_fid, key_mid);
        lemma_member_index(d.members, key_fid, key_mid);
        let mj = member_index(d.members, key_fid, key_mid);
        assert(mj >= 0 && !d.members[mj].is_deleted);
        if mj == mi {
            // The deleted row's group would still list the member online.
            assert(d.members[mi].fid == key_fid && d.members[mi].m_id == key_mid);
            crate::models::lemma_member_index(d.members, key_fid, key_mid);
            lemma_online_index(l[k].onlines, key_mid);
            assert(online_index(l[k].onlines, key_mid) >= 0);
            assert(false);
        }
        assert(d2.members[mj] == d.members[mj]);
    }
}

/// Upserting a member row keeps the presence map and the tables agreeing:
/// every key that resolved before still resolves, and the touched row
/// comes out live.
proof fn lemma_state_member_upsert(l: Seq<PresenceGroupV>, d: DbV, row: MemberV)
    requires
        wf_state(l, d),
        1 <= row.fid <= d.groups.len(),
        d.members.len() < i64::MAX,
    ensures
        wf_state(l, DbV { members: crate::models::member_upsert(d.members, row), ..d }),
{
    let ms2 = crate::models::member_upsert(d.members, row);
    let d2 = DbV { members: ms2, ..d };
    crate::models::lemma_member_index(d.members, row.fid, row.m_id);
    let i = member_index(d.members, row.fid, row.m_id);
    if i >= 0 {
        crate::models::lemma_wf_member_update(
            d,
            i,
            MemberV {
                m_addr: row.m_addr,
                m_name: row.m_name,
                is_manager: row.is_manager,
                datetime: row.datetime,
                is_deleted: false,
                ..d.members[i]
            },
        );
    } else {
        crate::models::lemma_wf_member_push(d, MemberV { id: (d.members.len() + 1) as i64, ..row });
    }
    assert forall|k: int, j: int|
        0 <= k < l.len() && 0 <= j < (#[trigger] l[k]).onlines.len() implies {
        let mj = member_index(d2.members, l[k].fid, (#[trigger] l[k].onlines[j]).m_id);
        mj >= 0 && !d2.members[mj].is_deleted
    } by {
        let key_fid = l[k].fid;
        let key_mid = l[k].onlines[j].m_id;
        crate::models::lemma_member_index(d.members, key_fid, key_mid);
        let mj = member_index(d.members, key_fid, key_mid);
        assert(mj >= 0 && !d.members[mj].is_deleted);
        if i >= 0 {
            lemma_member_index_same_keys(d.members, ms2, key_fid, key_mid);
            if mj == i {
                assert(!ms2[mj].is_deleted);
            } else {
                assert(ms2[mj] == d.members[mj]);
            }
        } else {
            crate::models::lemma_member_index_push(
                d.members,
                MemberV { id: (d.members.len() + 1) as i64, ..row },
                key_fid,
                key_mid,
            );
            assert(ms2[mj] == d.members[mj]);
        }
    }
}

/// Appending a group row keeps the presence map and the tables agreeing:
/// no presence entry names the new row yet.
proof fn lemma_state_group_push(l: Seq<PresenceGroupV>, d: DbV, x: GroupChatV)
    requires
        wf_state(l, d),
        x.id == d.groups.len() + 1,
        x.height == 0,
        forall|j: int| 0 <= j < d.groups.len() ==> (#[trigger] d.groups[j]).g_id != x.g_id,
    ensures
        wf_state(l, DbV { groups: d.groups.push(x), ..d }),
{
    crate::models::lemma_wf_group_push(d, x);
    let d2 = DbV { groups: d.groups.push(x), ..d };
    assert forall|k: int| 0 <= k < l.len() implies {
        let p = #[trigger] l[k];
        &&& 1 <= p.fid <= d2.groups.len()
        &&& d2.groups[p.fid - 1].g_id == p.gcd
        &&& d2.groups[p.fid - 1].height == p.height
    } by {
        assert(d2.groups[l[k].fid - 1] == d.groups[l[k].fid - 1]);
    }
}

/// A change that leaves the group and member tables alone keeps the
/// presence map and the tables agreeing.
proof fn lemma_state_same_link(l: Seq<PresenceGroupV>, d: DbV, d2: DbV)
    requires
        wf_state(l, d),
        wf_db(d2),
        d2.groups == d.groups,
        d2.members == d.members,
    ensures
        wf_state(l, d2),
{
}

/// Replacing one group's roster with one whose members all have live rows
/// keeps the presence map and the tables agreeing.
proof fn lemma_state_roster_change(
    l: Seq<PresenceGroupV>,
    d: DbV,
    pi: int,
    os2: Seq<OnlineMemberV>,
)
    requires
        wf_state(l, d),
        0 <= pi < l.len(),
        forall|i: int, j: int|
            0 <= i < j < os2.len() ==> (#[trigger] os2[i]).m_id != (#[trigger] os2[j]).m_id,
        forall|i: int|
            0 <= i < os2.len() ==> {
                let mi = member_index(d.members, l[pi].fid, (#[trigger] os2[i]).m_id);
                mi >= 0 && !d.members[mi].is_deleted
            },
    ensures
        wf_state(l.update(pi, PresenceGroupV { onlines: os2, ..l[pi] }), d),
{
    let l2 = l.update(pi, PresenceGroupV { onlines: os2, ..l[pi] });
    assert forall|a: int, b: int| 0 <= a < b < l2.len() implies (#[trigger] l2[a]).gcd != (
    #[trigger] l2[b]).gcd by {
        assert(l2[a].gcd == l[a].gcd && l2[b].gcd == l[b].gcd);
    }
    assert forall|k: int, i: int, j: int|
        0 <= k < l2.len() && 0 <= i < j < (#[trigger] l2[k]).onlines.len() implies (
    #[trigger] l2[k].onlines[i]).m_id != (#[trigger] l2[k].onlines[j]).m_id by {
        if k != pi {
            assert(l2[k] == l[k]);
        }
    }
    assert forall|k: int| 0 <= k < l2.len() implies {
        let p = #[trigger] l2[k];
        &&& 1 <= p.fid <= d.groups.len()
        &&& d.groups[p.fid - 1].g_id == p.gcd
        &&& d.groups[p.fid - 1].height == p.height
    } by {
        if k != pi {
            assert(l2[k] == l[k]);
        } else {
            assert(l2[k].fid == l[pi].fid && l2[k].gcd == l[pi].gcd && l2[k].height
                == l[pi].height);
        }
    }
    assert forall|k: int, i: int|
        0 <= k < l2.len() && 0 <= i < (#[trigger] l2[k]).onlines.len() implies {
        let mi = member_index(d.members, l2[k].fid, (#[trigger] l2[k].onlines[i]).m_id);
        mi >= 0 && !d.members[mi].is_deleted
    } by {
        if k != pi {
            assert(l2[k] == l[k]);
        } else {
            assert(l2[k].fid == l[pi].fid);
            assert(l2[k].onlines == os2);
        }
    }
}

/// After a height step, the presence map and the tables still agree: the
/// served group's entry and row record the same new height, and no other
/// entry shares that group row.
proof fn lemma_state_height_step(
    pre_l: Seq<PresenceGroupV>,
    pre_d: DbV,
    gi: int,
    fid: i64,
    h: i64,
    post_d: DbV,
    post_l: Seq<PresenceGroupV>,
)
    requires
        wf_state(pre_l, pre_d),
        wf_db(post_d),
        0 <= gi < pre_l.len(),
        pre_l[gi].fid == fid,
        h == pre_l[gi].height + 1,
        post_l == pre_l.update(gi, PresenceGroupV { height: h, ..pre_l[gi] }),
        post_d.groups == pre_d.groups.update(
            fid - 1,
            GroupChatV { height: h, ..pre_d.groups[fid - 1] },
        ),
        post_d.members == pre_d.members,
    ensures
        wf_state(post_l, post_d),
{
    assert forall|k: int, j: int| 0 <= k < j < post_l.len() implies (#[trigger] post_l[k]).gcd != (
    #[trigger] post_l[j]).gcd by {
        assert(post_l[k].gcd == pre_l[k].gcd && post_l[j].gcd == pre_l[j].gcd);
    }
    assert forall|k: int, i: int, j: int|
        0 <= k < post_l.len() && 0 <= i < j < (#[trigger] post_l[k]).onlines.len() implies (
    #[trigger] post_l[k].onlines[i]).m_id != (#[trigger] post_l[k].onlines[j]).m_id by {
        assert(post_l[k].onlines == pre_l[k].onlines);
    }
    assert forall|k: int| 0 <= k < post_l.len() implies {
        let p = #[trigger] post_l[k];
        &&& 1 <= p.fid <= post_d.groups.len()
        &&& post_d.groups[p.fid - 1].g_id == p.gcd
        &&& post_d.groups[p.fid - 1].height == p.height
    } by {
        if k == gi {
            assert(post_l[k].fid == fid);
            assert(post_d.groups[fid - 1].height == h);
            assert(post_d.groups[fid - 1].g_id == pre_d.groups[fid - 1].g_id);
        } else {
            assert(post_l[k] == pre_l[k]);
            // Another presence entry cannot share the group row: its group
            // identity would collide.
            if pre_l[k].fid == fid {
                assert(pre_l[k].gcd == pre_d.groups[fid - 1].g_id);
                assert(pre_l[gi].gcd == pre_d.groups[fid - 1].g_id);
                assert(false);
            }
            assert(post_d.groups[pre_l[k].fid - 1] == pre_d.groups[pre_l[k].fid - 1]);
        }
    }
    assert forall|k: int, i: int|
        0 <= k < post_l.len() && 0 <= i < (#[trigger] post_l[k]).onlines.len() implies {
        let mi = member_index(post_d.members, post_l[k].fid, (#[trigger] post_l[k].onlines[i]).m_id);
        mi >= 0 && !post_d.members[mi].is_deleted
    } by {
        assert(post_l[k].onlines == pre_l[k].onlines);
        assert(post_l[k].fid == pre_l[k].fid);
    }
}

/// Dropping one entry from a roster keeps the presence map and the
/// tables agreeing.
proof fn lemma_state_roster_remove(l: Seq<PresenceGroupV>, d: DbV, pi: int, oi: int)
    requires
        wf_state(l, d),
        0 <= pi < l.len(),
        0 <= oi < l[pi].onlines.len(),
    ensures
        wf_state(l.update(pi, PresenceGroupV { onlines: l[pi].onlines.remove(oi), ..l[pi] }), d),
{
    let os = l[pi].onlines;
    let os2 = os.remove(oi);
    assert forall|a: int, b: int| 0 <= a < b < os2.len() implies (#[trigger] os2[a]).m_id != (
    #[trigger] os2[b]).m_id by {
        let a0: int = if a < oi { a } else { a + 1 };
        let b0: int = if b < oi { b } else { b + 1 };
        assert(os2[a] == os[a0] && os2[b] == os[b0]);
    }
    assert forall|a: int| 0 <= a < os2.len() implies {
        let mj = member_index(d.members, l[pi].fid, (#[trigger] os2[a]).m_id);
        mj >= 0 && !d.members[mj].is_deleted
    } by {
        let a0: int = if a < oi { a } else { a + 1 };
        assert(os2[a] == os[a0]);
    }
    lemma_state_roster_change(l, d, pi, os2);
}

/// Replacing one group's roster keeps the map's group identities unique;
/// the new roster must keep unique identities itself.
proof fn lemma_presence_roster_update(l: Seq<PresenceGroupV>, k: int, os: Seq<OnlineMemberV>)
    requires
        wf_presence(l),
        0 <= k < l.len(),
        forall|i: int, j: int|
            0 <= i < j < os.len() ==> (#[trigger] os[i]).m_id != (#[trigger] os[j]).m_id,
    ensures
        wf_presence(l.update(k, PresenceGroupV { onlines: os, ..l[k] })),
{
    let l2 = l.update(k, PresenceGroupV { onlines: os, ..l[k] });
    assert forall|a: int, b: int| 0 <= a < b < l2.len() implies (#[trigger] l2[a]).gcd != (
    #[trigger] l2[b]).gcd by {
        assert(l2[a].gcd == l[a].gcd && l2[b].gcd == l[b].gcd);
    }
    assert forall|g: int, i: int, j: int|
        0 <= g < l2.len() && 0 <= i < j < (#[trigger] l2[g]).onlines.len() implies (
    #[trigger] l2[g].onlines[i]).m_id != (#[trigger] l2[g].onlines[j]).m_id by {
        if g != k {
            assert(l2[g] == l[g]);
        }
    }
}

/// Finds the first roster entry recorded at an address.
#[verifier::loop_isolation(false)]
fn find_addr(os: &Vec<OnlineMember>, addr: &PeerAddr) -> (r: Option<usize>)
    ensures
        ({
            let osv = os@.map_values(|o: OnlineMember| o@);
            match r {
                Some(i) => addr_index(osv, addr@) == i && i < osv.len(),
                None => addr_index(osv, addr@) < 0,
            }
        }),
{
    let ghost osv = os@.map_values(|o: OnlineMember| o@);
    let m: usize = os.len();
    let mut i: usize = 0;
    while i < m
        invariant
            i <= m,
            m == osv.len(),
            osv == os@.map_values(|o: OnlineMember| o@),
            forall|j: int| 0 <= j < i ==> (#[trigger] osv[j]).m_addr != addr@,
        decreases m - i,
    {
        if os[i].m_addr.eq_addr(addr) {
            proof {
                lemma_addr_index_prefix(osv, addr@, i as int);
            }
            return Some(i);
        }
        i += 1;
    }
    proof {
        lemma_addr_index(osv, addr@);
    }
    Option::None
}

/// Builds the recipient list of a whole roster.
#[verifier::loop_isolation(false)]
fn recipients_of(os: &Vec<OnlineMember>) -> (r: Vec<(GroupId, PeerAddr)>)
    ensures
        recips_match(r@, os@.map_values(|o: OnlineMember| o@)),
{
    let mut r: Vec<(GroupId, PeerAddr)> = Vec::new();
    let n: usize = os.len();
    let mut i: usize = 0;
    while i < n
        invariant
            i <= n,
            r@.len() == i,
            forall|j: int|
                0 <= j < i ==> (#[trigger] r@[j]).0@ == os@[j]@.m_id && r@[j].1@ == os@[j]@.m_addr,
        decreases n - i,
    {
        r.push((os[i].m_id.duplicate(), os[i].m_addr.duplicate()));
        i += 1;
    }
    r
}

/// Builds the recipient list of the roster's managers.
#[verifier::loop_isolation(false)]
fn manager_recipients_of(os: &Vec<OnlineMember>) -> (r: Vec<(GroupId, PeerAddr)>)
    ensures
        manager_recips_match(r@, os@.map_values(|o: OnlineMember| o@)),
{
    let ghost f = |o: OnlineMemberV| o.is_manager;
    let ghost osv = os@.map_values(|o: OnlineMember| o@);
    let mut r: Vec<(GroupId, PeerAddr)> = Vec::new();
    let n: usize = os.len();
    let mut i: usize = 0;
    proof {
        reveal(Seq::filter);
        assert(osv.take(0).filter(f) =~= Seq::<OnlineMemberV>::empty());
    }
    while i < n
        invariant
            i <= n,
            osv == os@.map_values(|o: OnlineMember| o@),
            f == (|o: OnlineMemberV| o.is_manager),
            recips_match(r@, osv.take(i as int).filter(f)),
        decreases n - i,
    {
        proof {
            reveal(Seq::filter);
            let prefix = osv.take(i as int);
            let step = osv.take(i as int + 1);
            assert(step.drop_last() =~= prefix);
            assert(step.last() == osv[i as int]);
        }
        if os[i].is_manager {
            r.push((os[i].m_id.duplicate(), os[i].m_addr.duplicate()));
        }
        i += 1;
    }
    proof {
        assert(osv.take(n as int) =~= osv);
    }
    r
}

} // verus!
