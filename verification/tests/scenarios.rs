//! End-to-end runs of the layer coordinator over a fresh store.

use group_chat_server::blobs::Blobs;
use group_chat_server::events::{ConnectProof, Event, GroupInfo, GroupType, JoinProof,
    LayerConnect, LayerEvent, LayerResult, NetworkMessage, Outbound, RecvMsg};
use group_chat_server::ids::{GroupId, PeerAddr, Proof};
use group_chat_server::layer::Layer;
use group_chat_server::models::Db;

fn idb(last: u8) -> Vec<u8> {
    let mut v = vec![0u8; 32];
    v[31] = last;
    v
}

fn gid(last: u8) -> GroupId {
    GroupId(idb(last))
}

fn addr(last: u8) -> PeerAddr {
    PeerAddr(idb(last))
}

fn create_event(owner: u8, g: u8) -> LayerEvent {
    LayerEvent::Create(
        GroupInfo::Common(
            gid(owner),
            "Ow".to_string(),
            vec![7, 8],
            gid(g),
            GroupType::Open,
            false,
            "g".to_string(),
            "bio".to_string(),
            vec![9, 9],
        ),
        Proof(vec![]),
    )
}

/// Builds the world of the first scenario: OWNER creates G under the
/// permissionless policy.
fn created_world() -> (Layer, Db, Blobs) {
    let mut db = Db::new();
    let mut blobs = Blobs::new();
    let mut layer = Layer::new(&db);
    let out = layer
        .handle(
            &mut db,
            &mut blobs,
            &gid(1),
            RecvMsg::Event(addr(0x10), create_event(1, 0xAA)),
            1_000_000,
        )
        .unwrap();
    assert_eq!(out.len(), 1);
    (layer, db, blobs)
}

#[test]
fn create_under_permissionless() {
    let (layer, db, _blobs) = created_world();

    // One manager row for OWNER with nine creations left.
    assert_eq!(db.managers.len(), 1);
    assert_eq!(db.managers[0].gid.0, idb(1));
    assert_eq!(db.managers[0].times, 9);
    assert!(!db.managers[0].is_deleted);

    // One group row with the requested identity, at height one.
    assert_eq!(db.groups.len(), 1);
    assert_eq!(db.groups[0].g_id.0, idb(0xAA));
    assert_eq!(db.groups[0].height, 1);

    // One member row: the owner, managing, at the connect address.
    assert_eq!(db.members.len(), 1);
    assert_eq!(db.members[0].m_id.0, idb(1));
    assert_eq!(db.members[0].m_addr.0, idb(0x10));
    assert_eq!(db.members[0].m_name, "Ow");
    assert!(db.members[0].is_manager);

    // One log row: the join, at height one.
    assert_eq!(db.consensus.len(), 1);
    assert_eq!(db.consensus[0].height, 1);

    // The presence map serves G with the owner online and managing.
    assert_eq!(layer.groups.len(), 1);
    assert_eq!(layer.groups[0].gcd.0, idb(0xAA));
    assert_eq!(layer.groups[0].height, 1);
    assert_eq!(layer.groups[0].onlines.len(), 1);
    assert_eq!(layer.groups[0].onlines[0].m_id.0, idb(1));
    assert!(layer.groups[0].onlines[0].is_manager);
}

#[test]
fn create_replies_create_result() {
    let mut db = Db::new();
    let mut blobs = Blobs::new();
    let mut layer = Layer::new(&db);
    let out = layer
        .handle(
            &mut db,
            &mut blobs,
            &gid(1),
            RecvMsg::Event(addr(0x10), create_event(1, 0xAA)),
            1_000_000,
        )
        .unwrap();
    assert_eq!(out.len(), 1);
    match &out[0] {
        Outbound::Event(recips, LayerEvent::CreateResult(g, ok)) => {
            assert_eq!(recips.len(), 1);
            assert_eq!(recips[0].0 .0, idb(1));
            assert_eq!(g.0, idb(0xAA));
            assert!(*ok);
        },
        _ => panic!("expected a creation reply"),
    }
}

#[test]
fn taken_group_id_fails_creation() {
    let (mut layer, mut db, mut blobs) = created_world();
    let out = layer
        .handle(
            &mut db,
            &mut blobs,
            &gid(2),
            RecvMsg::Event(addr(0x11), create_event(2, 0xAA)),
            1_000_001,
        )
        .unwrap();
    assert_eq!(out.len(), 1);
    match &out[0] {
        Outbound::Event(_, LayerEvent::CreateResult(g, ok)) => {
            assert_eq!(g.0, idb(0xAA));
            assert!(!*ok);
        },
        _ => panic!("expected a failed creation reply"),
    }
    assert_eq!(db.groups.len(), 1);
}

/// BOB joins the open group; the join is logged and broadcast.
fn joined_world() -> (Layer, Db, Blobs) {
    let (mut layer, mut db, mut blobs) = created_world();
    let out = layer
        .handle(
            &mut db,
            &mut blobs,
            &gid(3),
            RecvMsg::Event(
                addr(0x20),
                LayerEvent::Request(
                    gid(0xAA),
                    JoinProof::Open("Bo".to_string(), vec![4, 4]),
                ),
            ),
            2_000_000,
        )
        .unwrap();

    // Member row for BOB, not managing.
    assert_eq!(db.members.len(), 2);
    assert_eq!(db.members[1].m_id.0, idb(3));
    assert_eq!(db.members[1].m_name, "Bo");
    assert!(!db.members[1].is_manager);

    // Log row at height two for the join.
    assert_eq!(db.consensus.len(), 2);
    assert_eq!(db.consensus[1].height, 2);

    // Roster: owner then BOB.
    assert_eq!(layer.groups[0].onlines.len(), 2);
    assert_eq!(layer.groups[0].onlines[1].m_id.0, idb(3));

    // Outbound: the join broadcast to both, then the agreement to BOB.
    assert_eq!(out.len(), 2);
    match &out[0] {
        Outbound::Event(recips, LayerEvent::Sync(g, h, Event::MemberJoin(m, a, n, av, _t))) => {
            assert_eq!(recips.len(), 2);
            assert_eq!(g.0, idb(0xAA));
            assert_eq!(*h, 2);
            assert_eq!(m.0, idb(3));
            assert_eq!(a.0, idb(0x20));
            assert_eq!(n, "Bo");
            assert_eq!(av, &vec![4, 4]);
        },
        _ => panic!("expected the join broadcast"),
    }
    match &out[1] {
        Outbound::Event(recips, LayerEvent::Agree(g, GroupInfo::Common(_, _, _, gg, gt, na, nm, bi, _))) => {
            assert_eq!(recips.len(), 1);
            assert_eq!(recips[0].0 .0, idb(3));
            assert_eq!(g.0, idb(0xAA));
            assert_eq!(gg.0, idb(0xAA));
            assert_eq!(*gt, GroupType::Open);
            assert!(!*na);
            assert_eq!(nm, "g");
            assert_eq!(bi, "bio");
        },
        _ => panic!("expected the agreement"),
    }
    (layer, db, blobs)
}

#[test]
fn open_join_and_broadcast() {
    joined_world();
}

#[test]
fn message_is_logged_and_broadcast() {
    let (mut layer, mut db, mut blobs) = joined_world();
    let out = layer
        .handle(
            &mut db,
            &mut blobs,
            &gid(3),
            RecvMsg::Event(
                addr(0x20),
                LayerEvent::Sync(
                    gid(0xAA),
                    0,
                    Event::MessageCreate(
                        gid(3),
                        NetworkMessage::String("hi".to_string()),
                        0,
                    ),
                ),
            ),
            3_000_000,
        )
        .unwrap();

    assert_eq!(db.messages.len(), 1);
    assert_eq!(db.messages[0].m_content, "hi");
    assert_eq!(db.consensus.len(), 3);
    assert_eq!(db.consensus[2].height, 3);
    assert_eq!(layer.groups[0].height, 3);

    assert_eq!(out.len(), 1);
    match &out[0] {
        Outbound::Event(recips, LayerEvent::Sync(g, h, Event::MessageCreate(m, NetworkMessage::String(s), _))) => {
            assert_eq!(recips.len(), 2);
            assert_eq!(g.0, idb(0xAA));
            assert_eq!(*h, 3);
            assert_eq!(m.0, idb(3));
            assert_eq!(s, "hi");
        },
        _ => panic!("expected the message broadcast"),
    }
}

#[test]
fn sync_req_answers_packed_window() {
    let (mut layer, mut db, mut blobs) = joined_world();
    // Three messages bring the height to five.
    for i in 0..3u8 {
        layer
            .handle(
                &mut db,
                &mut blobs,
                &gid(3),
                RecvMsg::Event(
                    addr(0x20),
                    LayerEvent::Sync(
                        gid(0xAA),
                        0,
                        Event::MessageCreate(
                            gid(3),
                            NetworkMessage::String(format!("m{}", i)),
                            0,
                        ),
                    ),
                ),
                3_000_000 + i as u64,
            )
            .unwrap();
    }
    assert_eq!(layer.groups[0].height, 5);

    // ALICE joins, reconnects and asks for everything above height two.
    layer
        .handle(
            &mut db,
            &mut blobs,
            &gid(2),
            RecvMsg::Event(
                addr(0x30),
                LayerEvent::Request(gid(0xAA), JoinProof::Open("Al".to_string(), vec![])),
            ),
            4_000_000,
        )
        .unwrap();
    assert_eq!(layer.groups[0].height, 6);
    let out = layer
        .handle(
            &mut db,
            &mut blobs,
            &gid(2),
            RecvMsg::Event(addr(0x30), LayerEvent::SyncReq(gid(0xAA), 2)),
            5_000_000,
        )
        .unwrap();
    assert_eq!(out.len(), 1);
    match &out[0] {
        Outbound::Event(recips, LayerEvent::Packed(g, ch, f, t, evs)) => {
            assert_eq!(recips.len(), 1);
            assert_eq!(recips[0].0 .0, idb(2));
            assert_eq!(g.0, idb(0xAA));
            assert_eq!(*ch, 6);
            assert_eq!(*f, 2);
            assert_eq!(*t, 6);
            assert_eq!(evs.len(), 4);
            match &evs[0] {
                group_chat_server::events::PackedEvent::MessageCreate(m, NetworkMessage::String(s), _) => {
                    assert_eq!(m.0, idb(3));
                    assert_eq!(s, "m0");
                },
                _ => panic!("expected the first replayed message"),
            }
            match &evs[3] {
                group_chat_server::events::PackedEvent::MemberJoin(m, _, n, _, _) => {
                    assert_eq!(m.0, idb(2));
                    assert_eq!(n, "Al");
                },
                _ => panic!("expected the replayed join"),
            }
        },
        _ => panic!("expected a packed reply"),
    }
}

#[test]
fn sync_req_at_height_answers_nothing() {
    let (mut layer, mut db, mut blobs) = joined_world();
    let out = layer
        .handle(
            &mut db,
            &mut blobs,
            &gid(3),
            RecvMsg::Event(addr(0x20), LayerEvent::SyncReq(gid(0xAA), 2)),
            5_000_000,
        )
        .unwrap();
    assert!(out.is_empty());
}

#[test]
fn reconnect_updates_address_in_place() {
    let (mut layer, mut db, mut blobs) = joined_world();
    let out = layer
        .handle(
            &mut db,
            &mut blobs,
            &gid(3),
            RecvMsg::Connect(
                addr(0x30),
                LayerConnect(gid(0xAA), ConnectProof::Common(Proof(vec![]))),
            ),
            6_000_000,
        )
        .unwrap();

    // No duplicate; the address is refreshed in place.
    assert_eq!(layer.groups[0].onlines.len(), 2);
    assert_eq!(layer.groups[0].onlines[1].m_id.0, idb(3));
    assert_eq!(layer.groups[0].onlines[1].m_addr.0, idb(0x30));

    assert_eq!(out.len(), 2);
    match &out[0] {
        Outbound::Result(to, a, ok, Some(LayerResult(g, h))) => {
            assert_eq!(to.0, idb(3));
            assert_eq!(a.0, idb(0x30));
            assert!(*ok);
            assert_eq!(g.0, idb(0xAA));
            assert_eq!(*h, 2);
        },
        _ => panic!("expected a successful connect reply"),
    }
    match &out[1] {
        Outbound::Event(recips, LayerEvent::MemberOnline(g, m, a)) => {
            assert_eq!(recips.len(), 2);
            assert_eq!(g.0, idb(0xAA));
            assert_eq!(m.0, idb(3));
            assert_eq!(a.0, idb(0x30));
        },
        _ => panic!("expected the online broadcast"),
    }
}

#[test]
fn connect_from_stranger_is_refused() {
    let (mut layer, mut db, mut blobs) = created_world();
    let out = layer
        .handle(
            &mut db,
            &mut blobs,
            &gid(9),
            RecvMsg::Connect(
                addr(0x40),
                LayerConnect(gid(0xAA), ConnectProof::Common(Proof(vec![]))),
            ),
            6_000_000,
        )
        .unwrap();
    assert_eq!(out.len(), 1);
    match &out[0] {
        Outbound::Result(to, _, ok, payload) => {
            assert_eq!(to.0, idb(9));
            assert!(!*ok);
            assert!(payload.is_none());
        },
        _ => panic!("expected a refusal"),
    }
}

#[test]
fn leave_removes_address_everywhere_and_tells_the_rest() {
    let (mut layer, mut db, mut blobs) = joined_world();
    let out = layer
        .handle(&mut db, &mut blobs, &gid(0), RecvMsg::Leave(addr(0x10)), 7_000_000)
        .unwrap();

    // The owner is gone from the roster; no log row was appended.
    assert_eq!(layer.groups[0].onlines.len(), 1);
    assert_eq!(layer.groups[0].onlines[0].m_id.0, idb(3));
    assert_eq!(db.consensus.len(), 2);

    assert_eq!(out.len(), 1);
    match &out[0] {
        Outbound::Event(recips, LayerEvent::MemberOffline(g, m)) => {
            assert_eq!(recips.len(), 1);
            assert_eq!(recips[0].0 .0, idb(3));
            assert_eq!(g.0, idb(0xAA));
            assert_eq!(m.0, idb(1));
        },
        _ => panic!("expected the offline broadcast"),
    }
}

#[test]
fn member_leave_event_drops_row_and_presence() {
    let (mut layer, mut db, mut blobs) = joined_world();
    let out = layer
        .handle(
            &mut db,
            &mut blobs,
            &gid(3),
            RecvMsg::Event(
                addr(0x20),
                LayerEvent::Sync(gid(0xAA), 0, Event::MemberLeave(gid(3))),
            ),
            8_000_000,
        )
        .unwrap();
    assert!(db.members[1].is_deleted);
    assert_eq!(layer.groups[0].onlines.len(), 1);
    assert_eq!(db.consensus.len(), 3);
    // The broadcast still reached the leaver.
    match &out[0] {
        Outbound::Event(recips, LayerEvent::Sync(_, h, Event::MemberLeave(m))) => {
            assert_eq!(recips.len(), 2);
            assert_eq!(*h, 3);
            assert_eq!(m.0, idb(3));
        },
        _ => panic!("expected the leave broadcast"),
    }
}

#[test]
fn check_answers_policy() {
    let (mut layer, mut db, mut blobs) = created_world();
    let out = layer
        .handle(
            &mut db,
            &mut blobs,
            &gid(1),
            RecvMsg::Event(addr(0x10), LayerEvent::Check),
            9_000_000,
        )
        .unwrap();
    match &out[0] {
        Outbound::Event(_, LayerEvent::CheckResult(t, name, remain, sup)) => {
            assert_eq!(t.to_u32(), 0);
            assert_eq!(name, "dao.esse");
            assert_eq!(*remain, 9);
            assert_eq!(sup.len(), 3);
        },
        _ => panic!("expected a check reply"),
    }

    // A stranger is allowed under the permissionless policy.
    let out2 = layer
        .handle(
            &mut db,
            &mut blobs,
            &gid(7),
            RecvMsg::Event(addr(0x11), LayerEvent::Check),
            9_000_001,
        )
        .unwrap();
    match &out2[0] {
        Outbound::Event(_, LayerEvent::CheckResult(t, _, remain, _)) => {
            assert_eq!(t.to_u32(), 0);
            assert_eq!(*remain, 10);
        },
        _ => panic!("expected a check reply"),
    }
}

#[test]
fn invite_needing_agreement_asks_the_managers() {
    // A private group that needs agreement.
    let mut db = Db::new();
    let mut blobs = Blobs::new();
    let mut layer = Layer::new(&db);
    layer
        .handle(
            &mut db,
            &mut blobs,
            &gid(1),
            RecvMsg::Event(
                addr(0x10),
                LayerEvent::Create(
                    GroupInfo::Common(
                        gid(1),
                        "Ow".to_string(),
                        vec![],
                        gid(0xBB),
                        GroupType::Private,
                        true,
                        "p".to_string(),
                        "q".to_string(),
                        vec![],
                    ),
                    Proof(vec![]),
                ),
            ),
            1_000_000,
        )
        .unwrap();
    // BOB joins by invitation from ALICE — but ALICE is no member: lost.
    let out = layer
        .handle(
            &mut db,
            &mut blobs,
            &gid(3),
            RecvMsg::Event(
                addr(0x20),
                LayerEvent::Request(
                    gid(0xBB),
                    JoinProof::Invite(gid(2), Proof(vec![]), "Bo".to_string(), vec![]),
                ),
            ),
            2_000_000,
        )
        .unwrap();
    match &out[0] {
        Outbound::Event(_, LayerEvent::Reject(g, lost)) => {
            assert_eq!(g.0, idb(0xBB));
            assert!(*lost);
        },
        _ => panic!("expected a rejection"),
    }
    // Invited by the owner-manager: admitted straight away.
    let out2 = layer
        .handle(
            &mut db,
            &mut blobs,
            &gid(3),
            RecvMsg::Event(
                addr(0x20),
                LayerEvent::Request(
                    gid(0xBB),
                    JoinProof::Invite(gid(1), Proof(vec![]), "Bo".to_string(), vec![]),
                ),
            ),
            2_000_001,
        )
        .unwrap();
    assert_eq!(out2.len(), 2);
    assert_eq!(db.members.len(), 2);
}

#[test]
fn request_result_promotes_or_rejects() {
    // A private group; CARA invites BOB; the owner decides.
    let mut db = Db::new();
    let mut blobs = Blobs::new();
    let mut layer = Layer::new(&db);
    layer
        .handle(
            &mut db,
            &mut blobs,
            &gid(1),
            RecvMsg::Event(
                addr(0x10),
                LayerEvent::Create(
                    GroupInfo::Common(
                        gid(1),
                        "Ow".to_string(),
                        vec![],
                        gid(0xBB),
                        GroupType::Private,
                        true,
                        "p".to_string(),
                        "q".to_string(),
                        vec![],
                    ),
                    Proof(vec![]),
                ),
            ),
            1_000_000,
        )
        .unwrap();
    // CARA joins as a plain member, invited by the owner.
    layer
        .handle(
            &mut db,
            &mut blobs,
            &gid(4),
            RecvMsg::Event(
                addr(0x40),
                LayerEvent::Request(
                    gid(0xBB),
                    JoinProof::Invite(gid(1), Proof(vec![]), "Ca".to_string(), vec![]),
                ),
            ),
            2_000_000,
        )
        .unwrap();
    // CARA invites BOB; agreement is needed and CARA is no manager.
    let out = layer
        .handle(
            &mut db,
            &mut blobs,
            &gid(3),
            RecvMsg::Event(
                addr(0x20),
                LayerEvent::Request(
                    gid(0xBB),
                    JoinProof::Invite(gid(4), Proof(vec![]), "Bo".to_string(), vec![]),
                ),
            ),
            3_000_000,
        )
        .unwrap();
    let rid = match &out[0] {
        Outbound::Event(recips, LayerEvent::RequestHandle(g, m, _, _, rid, _)) => {
            // Only the owner manages the group, so only the owner hears.
            assert_eq!(recips.len(), 1);
            assert_eq!(recips[0].0 .0, idb(1));
            assert_eq!(g.0, idb(0xBB));
            assert_eq!(m.0, idb(3));
            *rid
        },
        _ => panic!("expected the request broadcast"),
    };
    assert_eq!(db.requests.len(), 1);

    // The owner approves: BOB becomes a member and is confirmed.
    let out2 = layer
        .handle(
            &mut db,
            &mut blobs,
            &gid(1),
            RecvMsg::Event(
                addr(0x10),
                LayerEvent::RequestResult(gid(0xBB), rid, true),
            ),
            4_000_000,
        )
        .unwrap();
    assert_eq!(out2.len(), 3);
    assert_eq!(db.members.len(), 3);
    assert_eq!(db.members[2].m_id.0, idb(3));
    match &out2[0] {
        Outbound::Event(_, LayerEvent::Agree(g, _)) => assert_eq!(g.0, idb(0xBB)),
        _ => panic!("expected the agreement first"),
    }
    match &out2[2] {
        Outbound::Event(_, LayerEvent::RequestResult(_, r2, ok)) => {
            assert_eq!(*r2, rid);
            assert!(*ok);
        },
        _ => panic!("expected the verdict broadcast"),
    }
}
