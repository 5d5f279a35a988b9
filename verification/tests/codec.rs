//! Round trips and edge cases of the event codec, the blob store and the
//! text encodings.

use group_chat_server::blobs::{BlobDir, Blobs};
use group_chat_server::events::{NetworkMessage, GroupType, GroupLocation, CheckType};
use group_chat_server::ids::{GroupId, PeerAddr};
use group_chat_server::models::{ConsensusType, Db, Member, Message, MessageType};
use group_chat_server::text::{parse_u32, split3, str_eq, u64_to_dec};

fn idb(last: u8) -> Vec<u8> {
    let mut v = vec![0u8; 32];
    v[31] = last;
    v
}

fn gid(last: u8) -> GroupId {
    GroupId(idb(last))
}

fn addr(last: u8) -> PeerAddr {
    PeerAddr(idb(last))
}

/// A store with one group and one live member, ready to encode messages.
fn world() -> (Db, Blobs, GroupId) {
    let mut db = Db::new();
    let blobs = Blobs::new();
    let mut g = group_chat_server::models::GroupChat::new(
        gid(1),
        gid(0xAA),
        GroupType::Open,
        "g".to_string(),
        "b".to_string(),
        false,
        vec![],
        100,
    );
    g.insert(&mut db).unwrap();
    let mut m = Member::new(1, gid(3), addr(0x20), "Bo".to_string(), false, 100);
    m.insert(&mut db);
    (db, blobs, gid(0xAA))
}

fn encode_then_decode(msg: &NetworkMessage) -> NetworkMessage {
    let (mut db, mut blobs, g) = world();
    let id = Message::from_network_message(&mut db, &mut blobs, &g, 1, &gid(3), msg, 5_000_000)
        .unwrap();
    let row = Message::get_id(&db, id).unwrap();
    row.to_network_message(&blobs, &g).unwrap()
}

#[test]
fn string_round_trips() {
    match encode_then_decode(&NetworkMessage::String("hello".to_string())) {
        NetworkMessage::String(s) => assert_eq!(s, "hello"),
        _ => panic!("wrong kind"),
    }
}

#[test]
fn invite_round_trips() {
    match encode_then_decode(&NetworkMessage::Invite("inv".to_string())) {
        NetworkMessage::Invite(s) => assert_eq!(s, "inv"),
        _ => panic!("wrong kind"),
    }
}

#[test]
fn unit_kinds_round_trip() {
    assert!(matches!(encode_then_decode(&NetworkMessage::Emoji), NetworkMessage::Emoji));
    assert!(matches!(encode_then_decode(&NetworkMessage::Phone), NetworkMessage::Phone));
    assert!(matches!(encode_then_decode(&NetworkMessage::Video), NetworkMessage::Video));
}

#[test]
fn empty_reads_back_as_empty_text() {
    match encode_then_decode(&NetworkMessage::Empty) {
        NetworkMessage::String(s) => assert_eq!(s, ""),
        _ => panic!("wrong kind"),
    }
}

#[test]
fn file_round_trips_through_the_store() {
    match encode_then_decode(&NetworkMessage::File("notes.txt".to_string(), vec![1, 2, 3])) {
        NetworkMessage::File(n, b) => {
            assert_eq!(n, "notes.txt");
            assert_eq!(b, vec![1, 2, 3]);
        },
        _ => panic!("wrong kind"),
    }
}

#[test]
fn record_round_trips_through_the_store() {
    match encode_then_decode(&NetworkMessage::Record(vec![9, 9, 1], 77)) {
        NetworkMessage::Record(b, t) => {
            assert_eq!(b, vec![9, 9, 1]);
            assert_eq!(t, 77);
        },
        _ => panic!("wrong kind"),
    }
}

#[test]
fn contact_round_trips_with_escaped_name() {
    match encode_then_decode(&NetworkMessage::Contact(
        "a;b".to_string(),
        gid(5),
        addr(6),
        vec![3, 3],
    )) {
        NetworkMessage::Contact(n, g, a, av) => {
            assert_eq!(n, "a;b");
            assert_eq!(g.0, idb(5));
            assert_eq!(a.0, idb(6));
            assert_eq!(av, vec![3, 3]);
        },
        _ => panic!("wrong kind"),
    }
}

#[test]
fn malformed_contact_reads_as_empty() {
    let row = Message {
        id: 1,
        fid: 1,
        mid: 1,
        m_type: MessageType::Contact,
        m_content: "no separators here".to_string(),
        datetime: 0,
    };
    let blobs = Blobs::new();
    match row.to_network_message(&blobs, &gid(0xAA)).unwrap() {
        NetworkMessage::Empty => {},
        _ => panic!("expected the empty reading"),
    }
}

#[test]
fn contact_with_bad_hex_fails() {
    let row = Message {
        id: 1,
        fid: 1,
        mid: 1,
        m_type: MessageType::Contact,
        m_content: "name;;zz;;zz".to_string(),
        datetime: 0,
    };
    let blobs = Blobs::new();
    assert!(row.to_network_message(&blobs, &gid(0xAA)).is_err());
}

#[test]
fn image_message_stores_full_file_and_thumbnail() {
    // A 200 by 10 image: wide enough for a thumbnail.
    let img = image::RgbImage::from_pixel(200, 10, image::Rgb([1, 2, 3]));
    let mut png: Vec<u8> = Vec::new();
    image::DynamicImage::ImageRgb8(img)
        .write_to(&mut std::io::Cursor::new(&mut png), image::ImageOutputFormat::Png)
        .unwrap();

    let (mut db, mut blobs, g) = world();
    let id = Message::from_network_message(
        &mut db,
        &mut blobs,
        &g,
        1,
        &gid(3),
        &NetworkMessage::Image(png.clone()),
        5_000_000,
    )
    .unwrap();
    let row = Message::get_id(&db, id).unwrap();
    let name = row.m_content.clone();
    assert_eq!(name.chars().count(), 24);

    // Both the full-size file and the thumbnail are stored.
    assert_eq!(blobs.read(&g, BlobDir::Images, &name), png);
    let thumb = blobs.read(&g, BlobDir::Thumbs, &name);
    assert!(!thumb.is_empty());
    let timg = image::load_from_memory(&thumb).unwrap();
    assert!(image::GenericImageView::dimensions(&timg).0 <= 120);
    assert!(image::GenericImageView::dimensions(&timg).1 <= 800);

    // And the message reads back with the full bytes.
    match row.to_network_message(&blobs, &g).unwrap() {
        NetworkMessage::Image(b) => assert_eq!(b, png),
        _ => panic!("wrong kind"),
    }
}

#[test]
fn narrow_image_stores_no_thumbnail() {
    let img = image::RgbImage::from_pixel(50, 50, image::Rgb([1, 2, 3]));
    let mut png: Vec<u8> = Vec::new();
    image::DynamicImage::ImageRgb8(img)
        .write_to(&mut std::io::Cursor::new(&mut png), image::ImageOutputFormat::Png)
        .unwrap();
    let (mut db, mut blobs, g) = world();
    let id = Message::from_network_message(
        &mut db,
        &mut blobs,
        &g,
        1,
        &gid(3),
        &NetworkMessage::Image(png.clone()),
        5_000_000,
    )
    .unwrap();
    let row = Message::get_id(&db, id).unwrap();
    assert_eq!(blobs.read(&g, BlobDir::Images, &row.m_content), png);
    assert!(blobs.read(&g, BlobDir::Thumbs, &row.m_content).is_empty());
}

#[test]
fn invalid_image_is_refused() {
    let (mut db, mut blobs, g) = world();
    let r = Message::from_network_message(
        &mut db,
        &mut blobs,
        &g,
        1,
        &gid(3),
        &NetworkMessage::Image(vec![1, 2, 3]),
        5_000_000,
    );
    assert!(r.is_err());
    assert!(db.messages.is_empty());
}

#[test]
fn blob_reads_of_absent_names_are_empty() {
    let blobs = Blobs::new();
    assert!(blobs.read(&gid(1), BlobDir::Files, "nothing").is_empty());
}

#[test]
fn blob_write_then_remove_reads_empty() {
    let mut blobs = Blobs::new();
    blobs.write(gid(1), BlobDir::Files, "a".to_string(), vec![1]);
    assert_eq!(blobs.read(&gid(1), BlobDir::Files, "a"), vec![1]);
    blobs.remove(&gid(1), BlobDir::Files, "a");
    assert!(blobs.read(&gid(1), BlobDir::Files, "a").is_empty());
}

#[test]
fn text_helpers_behave() {
    assert_eq!(parse_u32("123"), 123);
    assert_eq!(parse_u32(""), 0);
    assert_eq!(parse_u32("12x"), 0);
    assert_eq!(parse_u32("99999999999999"), 0);
    assert_eq!(u64_to_dec(9070), "9070");
    assert!(str_eq("abc", "abc"));
    assert!(!str_eq("abc", "abd"));
    let p = split3("a;;b;;c").unwrap();
    assert_eq!(p.0, "a");
    assert_eq!(p.1, "b");
    assert_eq!(p.2, "c");
    assert!(split3("a;;b").is_none());
    assert!(split3("a;;b;;c;;d").is_none());
}

#[test]
fn ordinals_are_stable() {
    assert_eq!(GroupType::Encrypted.to_u32(), 0);
    assert_eq!(GroupType::Private.to_u32(), 1);
    assert_eq!(GroupType::Open.to_u32(), 2);
    assert!(matches!(GroupType::from_u32(2), GroupType::Open));
    assert!(matches!(GroupType::from_u32(9), GroupType::Encrypted));
    assert_eq!(GroupLocation::Remote.to_u32(), 0);
    assert_eq!(GroupLocation::Local.to_u32(), 1);
    assert!(matches!(GroupLocation::from_u32(1), GroupLocation::Local));
    assert_eq!(CheckType::Allow.to_u32(), 0);
    assert_eq!(CheckType::Exhausted.to_u32(), 1);
    assert_eq!(CheckType::Suspend.to_u32(), 2);
    assert_eq!(CheckType::Deny.to_u32(), 3);
    assert_eq!(MessageType::String.to_i16(), 0);
    assert_eq!(MessageType::Invite.to_i16(), 8);
    assert!(matches!(MessageType::from_i16(5), MessageType::Record));
    assert!(matches!(MessageType::from_i16(99), MessageType::String));
    assert_eq!(ConsensusType::MessageCreate.to_i16(), 9);
    assert!(matches!(ConsensusType::from_i16(7), ConsensusType::MemberJoin));
    assert!(matches!(ConsensusType::from_i16(42), ConsensusType::Unknown));
}
