//! Idempotence and replay behaviour of the durable tables.

use group_chat_server::blobs::Blobs;
use group_chat_server::events::{Event, GroupInfo, GroupType, JoinProof, LayerEvent,
    NetworkMessage, Outbound, PackedEvent, RecvMsg};
use group_chat_server::ids::{GroupId, PeerAddr, Proof};
use group_chat_server::layer::Layer;
use group_chat_server::models::{add_manager, list_managers, remove_manager, Consensus,
    ConsensusType, Db, Member};

fn idb(last: u8) -> Vec<u8> {
    let mut v = vec![0u8; 32];
    v[31] = last;
    v
}

fn gid(last: u8) -> GroupId {
    GroupId(idb(last))
}

fn addr(last: u8) -> PeerAddr {
    PeerAddr(idb(last))
}

fn world() -> (Db, Blobs) {
    let mut db = Db::new();
    let mut g = group_chat_server::models::GroupChat::new(
        gid(1),
        gid(0xAA),
        GroupType::Open,
        "g".to_string(),
        "b".to_string(),
        false,
        vec![],
        100,
    );
    g.insert(&mut db).unwrap();
    (db, Blobs::new())
}

#[test]
fn member_upsert_twice_keeps_one_row() {
    let (mut db, _b) = world();
    let mut m1 = Member::new(1, gid(3), addr(0x20), "Bo".to_string(), false, 100);
    m1.insert(&mut db);
    let mut m2 = Member::new(1, gid(3), addr(0x20), "Bo".to_string(), false, 100);
    m2.insert(&mut db);
    assert_eq!(db.members.len(), 1);
    assert_eq!(m1.id, m2.id);
    assert!(!db.members[0].is_deleted);
}

#[test]
fn member_upsert_revives_and_updates() {
    let (mut db, _b) = world();
    let mut m1 = Member::new(1, gid(3), addr(0x20), "Bo".to_string(), false, 100);
    m1.insert(&mut db);
    Member::leave(&mut db, m1.id);
    assert!(db.members[0].is_deleted);
    let mut m2 = Member::new(1, gid(3), addr(0x21), "Bob".to_string(), true, 200);
    m2.insert(&mut db);
    assert_eq!(db.members.len(), 1);
    assert!(!db.members[0].is_deleted);
    assert_eq!(db.members[0].m_addr.0, idb(0x21));
    assert_eq!(db.members[0].m_name, "Bob");
    assert!(db.members[0].is_manager);
}

#[test]
fn consensus_upsert_twice_keeps_latest() {
    let (mut db, _b) = world();
    Consensus::insert(&mut db, 1, 1, 7, ConsensusType::MemberJoin);
    Consensus::insert(&mut db, 1, 1, 9, ConsensusType::MessageCreate);
    assert_eq!(db.consensus.len(), 1);
    assert_eq!(db.consensus[0].cid, 9);
    assert!(matches!(db.consensus[0].ctype, ConsensusType::MessageCreate));
}

#[test]
fn manager_admission_twice_keeps_one_live_row() {
    let mut db = Db::new();
    add_manager(&mut db, gid(5), 100);
    add_manager(&mut db, gid(5), 200);
    assert_eq!(db.managers.len(), 1);
    assert!(!db.managers[0].is_deleted);
    assert_eq!(db.managers[0].datetime, 200);
    assert_eq!(list_managers(&db).len(), 1);
}

#[test]
fn removed_manager_is_soft_deleted() {
    let mut db = Db::new();
    add_manager(&mut db, gid(5), 100);
    remove_manager(&mut db, &gid(5));
    assert_eq!(db.managers.len(), 1);
    assert!(db.managers[0].is_deleted);
    assert!(list_managers(&db).is_empty());
    // Re-admission revives the same row.
    add_manager(&mut db, gid(5), 300);
    assert_eq!(db.managers.len(), 1);
    assert!(!db.managers[0].is_deleted);
}

#[test]
fn membership_survives_a_restart() {
    let mut db = Db::new();
    let mut blobs = Blobs::new();
    let mut layer = Layer::new(&db);
    layer
        .handle(
            &mut db,
            &mut blobs,
            &gid(1),
            RecvMsg::Event(
                addr(0x10),
                LayerEvent::Create(
                    GroupInfo::Common(
                        gid(1),
                        "Ow".to_string(),
                        vec![],
                        gid(0xAA),
                        GroupType::Open,
                        false,
                        "g".to_string(),
                        "b".to_string(),
                        vec![],
                    ),
                    Proof(vec![]),
                ),
            ),
            1_000_000,
        )
        .unwrap();
    assert!(Member::exist(&db, 1, &gid(1)));

    // A restart reloads the presence map from the same tables.
    let layer2 = Layer::new(&db);
    assert!(Member::exist(&db, 1, &gid(1)));
    assert_eq!(layer2.groups.len(), 1);
    assert_eq!(layer2.groups[0].height, 1);
    assert_eq!(layer2.groups[0].fid, 1);
    assert!(layer2.groups[0].onlines.is_empty());
}

#[test]
fn full_replay_reconstructs_members_and_messages() {
    // Build a group with one joined member and one message, then replay
    // the whole log from zero.
    let mut db = Db::new();
    let mut blobs = Blobs::new();
    let mut layer = Layer::new(&db);
    layer
        .handle(
            &mut db,
            &mut blobs,
            &gid(1),
            RecvMsg::Event(
                addr(0x10),
                LayerEvent::Create(
                    GroupInfo::Common(
                        gid(1),
                        "Ow".to_string(),
                        vec![1],
                        gid(0xAA),
                        GroupType::Open,
                        false,
                        "g".to_string(),
                        "b".to_string(),
                        vec![],
                    ),
                    Proof(vec![]),
                ),
            ),
            1_000_000,
        )
        .unwrap();
    layer
        .handle(
            &mut db,
            &mut blobs,
            &gid(3),
            RecvMsg::Event(
                addr(0x20),
                LayerEvent::Request(gid(0xAA), JoinProof::Open("Bo".to_string(), vec![2])),
            ),
            2_000_000,
        )
        .unwrap();
    layer
        .handle(
            &mut db,
            &mut blobs,
            &gid(3),
            RecvMsg::Event(
                addr(0x20),
                LayerEvent::Sync(
                    gid(0xAA),
                    0,
                    Event::MessageCreate(gid(3), NetworkMessage::String("hi".to_string()), 0),
                ),
            ),
            3_000_000,
        )
        .unwrap();

    let height = db.groups[0].height;
    assert_eq!(height, 3);
    let packed = Consensus::pack(&db, &blobs, &gid(0xAA), 1, 0, height).unwrap();
    assert_eq!(packed.len(), 3);

    // Replaying the events yields the full member set and the message
    // stream, in join and send order.
    let mut members: Vec<Vec<u8>> = Vec::new();
    let mut texts: Vec<String> = Vec::new();
    for ev in &packed {
        match ev {
            PackedEvent::MemberJoin(m, _, _, _, _) => members.push(m.0.clone()),
            PackedEvent::MessageCreate(m, NetworkMessage::String(s), _) => {
                assert_eq!(m.0, idb(3));
                texts.push(s.clone());
            },
            _ => panic!("unexpected replayed kind"),
        }
    }
    assert_eq!(members, vec![idb(1), idb(3)]);
    assert_eq!(texts, vec!["hi".to_string()]);
}

#[test]
fn pack_caps_reply_size() {
    // A window larger than the cap is cut to the cap.
    let mut db = Db::new();
    let mut blobs = Blobs::new();
    let mut layer = Layer::new(&db);
    layer
        .handle(
            &mut db,
            &mut blobs,
            &gid(1),
            RecvMsg::Event(
                addr(0x10),
                LayerEvent::Create(
                    GroupInfo::Common(
                        gid(1),
                        "Ow".to_string(),
                        vec![],
                        gid(0xAA),
                        GroupType::Open,
                        false,
                        "g".to_string(),
                        "b".to_string(),
                        vec![],
                    ),
                    Proof(vec![]),
                ),
            ),
            1_000_000,
        )
        .unwrap();
    for i in 0..120u64 {
        layer
            .handle(
                &mut db,
                &mut blobs,
                &gid(1),
                RecvMsg::Event(
                    addr(0x10),
                    LayerEvent::Sync(
                        gid(0xAA),
                        0,
                        Event::MessageCreate(
                            gid(1),
                            NetworkMessage::String(format!("{}", i)),
                            0,
                        ),
                    ),
                ),
                2_000_000 + i,
            )
            .unwrap();
    }
    let out = layer
        .handle(
            &mut db,
            &mut blobs,
            &gid(1),
            RecvMsg::Event(addr(0x10), LayerEvent::SyncReq(gid(0xAA), 0)),
            9_000_000,
        )
        .unwrap();
    match &out[0] {
        Outbound::Event(_, LayerEvent::Packed(_, ch, f, t, evs)) => {
            assert_eq!(*ch, 121);
            assert_eq!(*f, 0);
            assert_eq!(*t, 100);
            assert_eq!(evs.len(), 100);
        },
        _ => panic!("expected a packed reply"),
    }
}

#[test]
fn reload_skips_soft_deleted_group_rows() {
    let (mut db, _b) = world();
    // A second group row, soft-deleted by hand: the reload must not serve
    // it.
    let mut g2 = group_chat_server::models::GroupChat::new(
        gid(1),
        gid(0xBB),
        GroupType::Open,
        "x".to_string(),
        "y".to_string(),
        false,
        vec![],
        100,
    );
    g2.insert(&mut db).unwrap();
    db.groups[1].is_deleted = true;
    let layer = Layer::new(&db);
    assert_eq!(layer.groups.len(), 1);
    assert_eq!(layer.groups[0].gcd.0, idb(0xAA));
}

#[test]
fn revived_manager_with_no_creations_left_is_refused() {
    // A manager whose row was withdrawn with nothing left: a create
    // revives the row, reads its stored count and refuses.
    let mut db = Db::new();
    let mut blobs = Blobs::new();
    add_manager(&mut db, gid(5), 100);
    db.managers[0].times = 0;
    remove_manager(&mut db, &gid(5));
    let mut layer = Layer::new(&db);
    let out = layer
        .handle(
            &mut db,
            &mut blobs,
            &gid(5),
            RecvMsg::Event(
                addr(0x50),
                LayerEvent::Create(
                    GroupInfo::Common(
                        gid(5),
                        "Ma".to_string(),
                        vec![],
                        gid(0xCC),
                        GroupType::Open,
                        false,
                        "n".to_string(),
                        "b".to_string(),
                        vec![],
                    ),
                    Proof(vec![]),
                ),
            ),
            2_000_000,
        )
        .unwrap();
    // The row came back live, but no group was created.
    assert!(!db.managers[0].is_deleted);
    assert_eq!(db.managers[0].times, 0);
    assert!(db.groups.is_empty());
    match &out[0] {
        Outbound::Event(_, LayerEvent::CheckResult(t, _, remain, _)) => {
            assert_eq!(t.to_u32(), 1);
            assert_eq!(*remain, 0);
        },
        _ => panic!("expected the refusal"),
    }
}
