//! The consensus log: idempotent appends keyed by `(group, height)`, and
//! the packed replay that synchronising peers apply.

use vstd::prelude::*;

use crate::blobs::{avatar_name, blob_lookup, BlobDir, Blobs};
use crate::events::{PackedEvent, PackedEventV};
use crate::ids::GroupId;
use crate::message::{decode_ok, decoded_msg};
use crate::models::{cid_ok, consensus_index, lemma_consensus_index, lemma_consensus_index_prefix,
    wf_db, Consensus, ConsensusType, Db, DbV, Member, Message};
use crate::ServerError;

verus! {

/// The upsert the log performs: a row for `(fid, height)` takes the new
/// kind and pointer in place; otherwise a row is appended.
pub open spec fn consensus_upsert(
    cs: Seq<Consensus>,
    fid: i64,
    height: i64,
    ctype: ConsensusType,
    cid: i64,
) -> Seq<Consensus> {
    let i = consensus_index(cs, fid, height);
    if i >= 0 {
        cs.update(i, Consensus { ctype, cid, ..cs[i] })
    } else {
        cs.push(Consensus { id: (cs.len() + 1) as i64, fid, height, ctype, cid })
    }
}

/// Upserting a key leaves its first-match position holding that key, and
/// everything before it unchanged.
proof fn lemma_consensus_upsert_index(
    cs: Seq<Consensus>,
    fid: i64,
    height: i64,
    ctype: ConsensusType,
    cid: i64,
)
    ensures
        consensus_index(consensus_upsert(cs, fid, height, ctype, cid), fid, height) == (
        if consensus_index(cs, fid, height) >= 0 {
            consensus_index(cs, fid, height)
        } else {
            cs.len() as int
        }),
{
    lemma_consensus_index(cs, fid, height);
    let i = consensus_index(cs, fid, height);
    let cs2 = consensus_upsert(cs, fid, height, ctype, cid);
    if i >= 0 {
        assert(cs2[i].fid == fid && cs2[i].height == height);
        assert forall|j: int| 0 <= j < i implies !((#[trigger] cs2[j]).fid == fid && cs2[j].height
            == height) by {
            assert(cs2[j] == cs[j]);
            if cs[j].fid == fid && cs[j].height == height {
                lemma_consensus_index_prefix_first(cs, fid, height, j);
            }
        }
        lemma_consensus_index_prefix(cs2, fid, height, i);
    } else {
        assert(cs2[cs.len() as int].fid == fid && cs2[cs.len() as int].height == height);
        assert forall|j: int| 0 <= j < cs.len() implies !((#[trigger] cs2[j]).fid == fid
            && cs2[j].height == height) by {
            assert(cs2[j] == cs[j]);
        }
        lemma_consensus_index_prefix(cs2, fid, height, cs.len() as int);
    }
}

/// A match strictly before the first-match position contradicts it being
/// the first.
proof fn lemma_consensus_index_prefix_first(cs: Seq<Consensus>, fid: i64, height: i64, j: int)
    requires
        0 <= j < cs.len(),
        cs[j].fid == fid && cs[j].height == height,
    ensures
        0 <= consensus_index(cs, fid, height) <= j,
    decreases cs.len(),
{
    if !(cs[0].fid == fid && cs[0].height == height) {
        assert(cs.skip(1)[j - 1] == cs[j]);
        lemma_consensus_index_prefix_first(cs.skip(1), fid, height, j - 1);
    }
}

/// The log's upsert is idempotent: writing the same key twice leaves the
/// single row the first write made, holding the latest kind and pointer.
pub proof fn lemma_consensus_upsert_idempotent(
    cs: Seq<Consensus>,
    fid: i64,
    height: i64,
    t1: ConsensusType,
    c1: i64,
    t2: ConsensusType,
    c2: i64,
)
    ensures
        consensus_upsert(consensus_upsert(cs, fid, height, t1, c1), fid, height, t2, c2)
            == consensus_upsert(cs, fid, height, t2, c2),
{
    lemma_consensus_index(cs, fid, height);
    lemma_consensus_upsert_index(cs, fid, height, t1, c1);
    let i = consensus_index(cs, fid, height);
    let once = consensus_upsert(cs, fid, height, t1, c1);
    if i >= 0 {
        assert(consensus_upsert(once, fid, height, t2, c2) =~= consensus_upsert(
            cs,
            fid,
            height,
            t2,
            c2,
        ));
    } else {
        assert(consensus_upsert(once, fid, height, t2, c2) =~= consensus_upsert(
            cs,
            fid,
            height,
            t2,
            c2,
        ));
    }
}

/// What one log row replays to, with its member, message and blob
/// sidecars materialised.
pub open spec fn packed_of(
    d: DbV,
    blobs: Map<(Seq<u8>, BlobDir, Seq<char>), Seq<u8>>,
    gcd: Seq<u8>,
    c: Consensus,
) -> PackedEventV {
    match c.ctype {
        ConsensusType::GroupInfo => PackedEventV::GroupInfo,
        ConsensusType::GroupTransfer => PackedEventV::GroupTransfer,
        ConsensusType::GroupManagerAdd => PackedEventV::GroupManagerAdd,
        ConsensusType::GroupManagerDel => PackedEventV::GroupManagerDel,
        ConsensusType::GroupClose => PackedEventV::GroupClose,
        ConsensusType::MemberInfo => {
            let m = d.members[c.cid - 1];
            PackedEventV::MemberInfo(
                m.m_id,
                m.m_addr,
                m.m_name,
                blob_lookup(blobs, gcd, BlobDir::Avatars, avatar_name(m.m_id)),
            )
        },
        ConsensusType::MemberJoin => {
            let m = d.members[c.cid - 1];
            PackedEventV::MemberJoin(
                m.m_id,
                m.m_addr,
                m.m_name,
                blob_lookup(blobs, gcd, BlobDir::Avatars, avatar_name(m.m_id)),
                m.datetime,
            )
        },
        ConsensusType::MemberLeave => PackedEventV::MemberLeave(d.members[c.cid - 1].m_id),
        ConsensusType::MessageCreate => {
            let msg = d.messages[c.cid - 1];
            PackedEventV::MessageCreate(
                d.members[msg.mid - 1].m_id,
                decoded_msg(msg, blobs, gcd),
                msg.datetime,
            )
        },
        ConsensusType::Unknown => PackedEventV::Empty,
    }
}

/// Whether every row of the window `from+1 ..= to` replays without error:
/// only a stored message that no longer decodes can fail.
pub open spec fn window_ok(d: DbV, fid: i64, from: i64, to: i64) -> bool {
    forall|h: i64|
        from < h <= to ==> {
            let c = d.consensus[#[trigger] consensus_index(d.consensus, fid, h)];
            c.ctype is MessageCreate ==> decode_ok(d.messages[c.cid - 1])
        }
}

/// Finds the log row of a group at a height.
#[verifier::loop_isolation(false)]
fn find_consensus<'a>(db: &'a Db, fid: i64, height: i64) -> (r: Option<&'a Consensus>)
    ensures
        match r {
            Some(c) => consensus_index(db@.consensus, fid, height) >= 0 && *c
                == db@.consensus[consensus_index(db@.consensus, fid, height)],
            None => consensus_index(db@.consensus, fid, height) < 0,
        },
{
    let n: usize = db.consensus.len();
    let mut i: usize = 0;
    while i < n
        invariant
            i <= n,
            forall|j: int|
                0 <= j < i ==> !((#[trigger] db@.consensus[j]).fid == fid && db@.consensus[j].height
                    == height),
        decreases n - i,
    {
        if db.consensus[i].fid == fid && db.consensus[i].height == height {
            proof {
                lemma_consensus_index_prefix(db@.consensus, fid, height, i as int);
            }
            return Some(&db.consensus[i]);
        }
        i += 1;
    }
    proof {
        lemma_consensus_index(db@.consensus, fid, height);
    }
    Option::None
}

impl Consensus {
    /// Records a log entry: an entry at the same `(fid, height)` takes the
    /// new kind and pointer in place, otherwise the entry is appended.
    /// This is the raw write the height step uses; on its own it does not
    /// keep the log invariants, so the caller re-establishes them.
    pub fn insert(db: &mut Db, fid: i64, height: i64, cid: i64, ctype: ConsensusType) -> (r: ())
        requires
            old(db)@.consensus.len() < i64::MAX,
        ensures
            final(db)@ == (DbV {
                consensus: consensus_upsert(old(db)@.consensus, fid, height, ctype, cid),
                ..old(db)@
            }),
    {
        let n: usize = db.consensus.len();
        let mut i: usize = 0;
        while i < n
            invariant
                i <= n,
                n == db@.consensus.len(),
                *db == *old(db),
                forall|j: int|
                    0 <= j < i ==> !((#[trigger] db@.consensus[j]).fid == fid
                        && db@.consensus[j].height == height),
            decreases n - i,
        {
            if db.consensus[i].fid == fid && db.consensus[i].height == height {
                proof {
                    lemma_consensus_index_prefix(db@.consensus, fid, height, i as int);
                }
                let row = Consensus {
                    id: db.consensus[i].id,
                    fid: db.consensus[i].fid,
                    height: db.consensus[i].height,
                    ctype,
                    cid,
                };
                db.consensus.set(i, row);
                proof {
                    assert(db@.consensus =~= consensus_upsert(
                        old(db)@.consensus,
                        fid,
                        height,
                        ctype,
                        cid,
                    ));
                    assert(db@ =~= (DbV {
                        consensus: consensus_upsert(old(db)@.consensus, fid, height, ctype, cid),
                        ..old(db)@
                    }));
                }
                return ;
            }
            i += 1;
        }
        proof {
            lemma_consensus_index(db@.consensus, fid, height);
        }
        let id: i64 = (n as i64) + 1;
        db.consensus.push(Consensus { id, fid, height, ctype, cid });
        proof {
            assert(db@.consensus =~= consensus_upsert(old(db)@.consensus, fid, height, ctype, cid));
            assert(db@ =~= (DbV {
                consensus: consensus_upsert(old(db)@.consensus, fid, height, ctype, cid),
                ..old(db)@
            }));
        }
    }

    /// Replays the log window `from+1 ..= to` of a group into packed
    /// events, one per height in order, with member rows, message rows and
    /// blobs materialised.  Only a stored message that no longer decodes
    /// makes the replay fail.
    #[verifier::loop_isolation(false)]
    pub fn pack(db: &Db, blobs: &Blobs, gcd: &GroupId, fid: i64, from: i64, to: i64) -> (r: Result<
        Vec<PackedEvent>,
        ServerError,
    >)
        requires
            wf_db(db@),
            1 <= fid <= db@.groups.len(),
            0 <= from <= to,
            to <= db@.groups[fid - 1].height,
        ensures
            r is Ok <==> window_ok(db@, fid, from, to),
            r matches Ok(v) ==> {
                &&& v@.len() == to - from
                &&& forall|k: int|
                    0 <= k < v@.len() ==> (#[trigger] v@[k])@ == packed_of(
                        db@,
                        blobs@,
                        gcd@,
                        db@.consensus[consensus_index(db@.consensus, fid, (from + 1 + k) as i64)],
                    )
            },
            r is Err ==> r == Err::<Vec<PackedEvent>, ServerError>(ServerError::Storage),
    {
        let mut packed: Vec<PackedEvent> = Vec::new();
        let mut h: i64 = from;
        while h < to
            invariant
                from <= h <= to,
                packed@.len() == h - from,
                forall|k: int|
                    0 <= k < packed@.len() ==> (#[trigger] packed@[k])@ == packed_of(
                        db@,
                        blobs@,
                        gcd@,
                        db@.consensus[consensus_index(db@.consensus, fid, (from + 1 + k) as i64)],
                    ),
                forall|hh: i64|
                    from < hh <= h ==> {
                        let c = db@.consensus[#[trigger] consensus_index(db@.consensus, fid, hh)];
                        c.ctype is MessageCreate ==> decode_ok(db@.messages[c.cid - 1])
                    },
            decreases to - h,
        {
            h = h + 1;
            let row = match find_consensus(db, fid, h) {
                Some(c) => c,
                Option::None => {
                    // The log is contiguous: every height up to the group
                    // height has a row.
                    proof {
                        let k = fid - 1;
                        assert(0 <= k < db@.groups.len() && 1 <= h <= db@.groups[k].height);
                        assert(consensus_index(db@.consensus, (k + 1) as i64, h) >= 0);
                        assert((k + 1) as i64 == fid);
                        assert(false);
                    }
                    return Err(ServerError::Storage);
                },
            };
            let ev: PackedEvent = match row.ctype {
                ConsensusType::GroupInfo => PackedEvent::GroupInfo,
                ConsensusType::GroupTransfer => PackedEvent::GroupTransfer,
                ConsensusType::GroupManagerAdd => PackedEvent::GroupManagerAdd,
                ConsensusType::GroupManagerDel => PackedEvent::GroupManagerDel,
                ConsensusType::GroupClose => PackedEvent::GroupClose,
                ConsensusType::MemberInfo => {
                    let m = match Member::get_id(db, row.cid) {
                        Ok(m) => m,
                        Err(_) => {
                            proof {
                                lemma_consensus_index(db@.consensus, fid, h);
                                let ci = consensus_index(db@.consensus, fid, h);
                                assert(db@.consensus[ci] == *row);
                                assert(cid_ok(
                                    row.ctype,
                                    row.cid,
                                    db@.members.len() as int,
                                    db@.messages.len() as int,
                                ));
                                assert(false);
                            }
                            return Err(ServerError::Storage);
                        },
                    };
                    let avatar = blobs.read_avatar(gcd, &m.m_id);
                    PackedEvent::MemberInfo(
                        m.m_id.duplicate(),
                        m.m_addr.duplicate(),
                        m.m_name.clone(),
                        avatar,
                    )
                },
                ConsensusType::MemberJoin => {
                    let m = match Member::get_id(db, row.cid) {
                        Ok(m) => m,
                        Err(_) => {
                            proof {
                                lemma_consensus_index(db@.consensus, fid, h);
                                let ci = consensus_index(db@.consensus, fid, h);
                                assert(db@.consensus[ci] == *row);
                                assert(cid_ok(
                                    row.ctype,
                                    row.cid,
                                    db@.members.len() as int,
                                    db@.messages.len() as int,
                                ));
                                assert(false);
                            }
                            return Err(ServerError::Storage);
                        },
                    };
                    let avatar = blobs.read_avatar(gcd, &m.m_id);
                    PackedEvent::MemberJoin(
                        m.m_id.duplicate(),
                        m.m_addr.duplicate(),
                        m.m_name.clone(),
                        avatar,
                        m.datetime,
                    )
                },
                ConsensusType::MemberLeave => {
                    let m = match Member::get_id(db, row.cid) {
                        Ok(m) => m,
                        Err(_) => {
                            proof {
                                lemma_consensus_index(db@.consensus, fid, h);
                                let ci = consensus_index(db@.consensus, fid, h);
                                assert(db@.consensus[ci] == *row);
                                assert(cid_ok(
                                    row.ctype,
                                    row.cid,
                                    db@.members.len() as int,
                                    db@.messages.len() as int,
                                ));
                                assert(false);
                            }
                            return Err(ServerError::Storage);
                        },
                    };
                    PackedEvent::MemberLeave(m.m_id.duplicate())
                },
                ConsensusType::MessageCreate => {
                    let msg = match Message::get_id(db, row.cid) {
                        Ok(m) => m,
                        Err(_) => {
                            proof {
                                lemma_consensus_index(db@.consensus, fid, h);
                                let ci = consensus_index(db@.consensus, fid, h);
                                assert(db@.consensus[ci] == *row);
                                assert(cid_ok(
                                    row.ctype,
                                    row.cid,
                                    db@.members.len() as int,
                                    db@.messages.len() as int,
                                ));
                                assert(false);
                            }
                            return Err(ServerError::Storage);
                        },
                    };
                    let sender = match Member::get_id(db, msg.mid) {
                        Ok(m) => m,
                        Err(_) => {
                            proof {
                                lemma_consensus_index(db@.consensus, fid, h);
                                assert(db@.consensus[consensus_index(db@.consensus, fid, h)]
                                    == *row);
                                assert(msg@ == db@.messages[row.cid - 1]);
                                assert(1 <= msg@.mid <= db@.members.len());
                                assert(false);
                            }
                            return Err(ServerError::Storage);
                        },
                    };
                    let nmsg = match msg.to_network_message(blobs, gcd) {
                        Ok(m) => m,
                        Err(_) => {
                            return Err(ServerError::Storage);
                        },
                    };
                    PackedEvent::MessageCreate(sender.m_id.duplicate(), nmsg, msg.datetime)
                },
                ConsensusType::Unknown => PackedEvent::Empty,
            };
            packed.push(ev);
            proof {
                assert(packed@.last()@ == packed_of(
                    db@,
                    blobs@,
                    gcd@,
                    db@.consensus[consensus_index(db@.consensus, fid, h)],
                ));
                assert forall|k: int| 0 <= k < packed@.len() implies (#[trigger] packed@[k])@
                    == packed_of(
                    db@,
                    blobs@,
                    gcd@,
                    db@.consensus[consensus_index(db@.consensus, fid, (from + 1 + k) as i64)],
                ) by {
                    if k < packed@.len() - 1 {
                        assert(packed@[k] == packed@.drop_last()[k]);
                    } else {
                        assert(from + 1 + k == h);
                    }
                }
            }
        }
        Ok(packed)
    }
}

} // verus!
