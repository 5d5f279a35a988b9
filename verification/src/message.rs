//! The event codec: how a network message becomes a persisted message row
//! with its blob sidecars, and how a row is read back into a network
//! message.
//!
//! Text and invitations are stored verbatim; images, files and voice
//! records store their bytes in the blob store and keep only the logical
//! name; a contact stores the escaped name and the hex identities, and its
//! avatar goes to the blob store under the contact's identity.

use vstd::prelude::*;

use crate::blobs::{avatar_name, record_content, record_name, image_width_spec, image_thumb_spec,
    BlobDir, Blobs, blob_lookup};
use crate::events::{NetworkMessage, NetworkMessageV};
use crate::ids::GroupId;
use crate::models::{lemma_wf_message_push, member_index, wf_db, Db, DbV, Member, Message,
    MessageRowV, MessageType};
use crate::text::{contact_sep, dec_of, dec_val, escape_name, escape_semicolons, first_dash,
    first_semi, hex_bytes, hex_decode, hex_encode, hex_of, hex_val, is_hex_str,
    lemma_dec_of_value, lemma_escape_last, lemma_escape_no_double_semi, lemma_escape_round_trip,
    lemma_first_dash_prefix, lemma_first_semi, lemma_first_semi_prefix, lemma_hex_round_trip,
    parse_u32, parse_u32_spec, split3, split_dash, unescape_name, unescape_semicolons};
use crate::ids::PeerAddr;
use crate::ServerError;

verus! {

/// The message-type column a network message is stored under.
pub open spec fn msg_type_of(m: NetworkMessageV) -> MessageType {
    match m {
        NetworkMessageV::String(_) => MessageType::String,
        NetworkMessageV::Image(_) => MessageType::Image,
        NetworkMessageV::File(_, _) => MessageType::File,
        NetworkMessageV::Contact(_, _, _, _) => MessageType::Contact,
        NetworkMessageV::Record(_, _) => MessageType::Record,
        NetworkMessageV::Emoji => MessageType::Emoji,
        NetworkMessageV::Phone => MessageType::Phone,
        NetworkMessageV::Video => MessageType::Video,
        NetworkMessageV::Invite(_) => MessageType::Invite,
        NetworkMessageV::Empty => MessageType::String,
    }
}

/// The stored content of a contact message: escaped name and the two hex
/// identities, separated by double semicolons.
pub open spec fn contact_content(name: Seq<char>, gid: Seq<u8>, addr: Seq<u8>) -> Seq<char> {
    escape_name(name) + contact_sep() + hex_of(gid) + contact_sep() + hex_of(addr)
}

/// How the blob store changes when a message is encoded: what the one
/// successful encoding of `m` under the image name `img` stores.
pub open spec fn encoded_blobs(
    pre: Map<(Seq<u8>, BlobDir, Seq<char>), Seq<u8>>,
    gcd: Seq<u8>,
    fid: i64,
    now_ms: u64,
    m: NetworkMessageV,
    img: Seq<char>,
) -> Map<(Seq<u8>, BlobDir, Seq<char>), Seq<u8>> {
    match m {
        NetworkMessageV::Image(b) => if image_width_spec(b).unwrap_or(0) > 100 {
            pre.insert((gcd, BlobDir::Thumbs, img), image_thumb_spec(b)).insert(
                (gcd, BlobDir::Images, img),
                b,
            )
        } else {
            pre.insert((gcd, BlobDir::Images, img), b)
        },
        NetworkMessageV::File(n, b) => pre.insert((gcd, BlobDir::Files, n), b),
        NetworkMessageV::Contact(_, g, _, av) => if av.len() == 0 {
            pre
        } else {
            pre.insert((gcd, BlobDir::Avatars, avatar_name(g)), av)
        },
        NetworkMessageV::Record(b, _) => pre.insert(
            (gcd, BlobDir::Records, record_name(fid as int, now_ms as int)),
            b,
        ),
        _ => pre,
    }
}

/// Whether the stored content of a successfully encoded message is `c`,
/// given the image name `img` that encoding drew.
pub open spec fn encoded_content(
    m: NetworkMessageV,
    fid: i64,
    now_ms: u64,
    img: Seq<char>,
    c: Seq<char>,
) -> bool {
    match m {
        NetworkMessageV::String(s) => c == s,
        NetworkMessageV::Image(_) => c == img,
        NetworkMessageV::File(n, _) => c == n,
        NetworkMessageV::Contact(n, g, a, _) => c == contact_content(n, g, a),
        NetworkMessageV::Record(_, t) => c == record_content(t as int, fid as int, now_ms as int),
        NetworkMessageV::Invite(s) => c == s,
        _ => c == Seq::<char>::empty(),
    }
}

/// The three fields of a contact content, when it has exactly three.
pub open spec fn contact_parts(c: Seq<char>) -> Option<(Seq<char>, Seq<char>, Seq<char>)> {
    let i1 = first_semi(c);
    if i1 < 0 {
        None
    } else {
        let rest = c.skip(i1 + 2);
        let i2 = first_semi(rest);
        if i2 < 0 {
            None
        } else {
            let tail = rest.skip(i2 + 2);
            if first_semi(tail) >= 0 {
                None
            } else {
                Some((c.take(i1), rest.take(i2), tail))
            }
        }
    }
}

/// Whether a stored row reads back without error.  Only a contact whose
/// content splits into three fields but whose identities are not hex can
/// fail.
pub open spec fn decode_ok(row: MessageRowV) -> bool {
    match row.m_type {
        MessageType::Contact => match contact_parts(row.m_content) {
            Some(p) => is_hex_str(p.1) && is_hex_str(p.2),
            None => true,
        },
        _ => true,
    }
}

/// The network message a stored row reads back to, with blob contents
/// recovered from the store.
pub open spec fn decoded_msg(
    row: MessageRowV,
    blobs: Map<(Seq<u8>, BlobDir, Seq<char>), Seq<u8>>,
    gcd: Seq<u8>,
) -> NetworkMessageV {
    match row.m_type {
        MessageType::String => NetworkMessageV::String(row.m_content),
        MessageType::Image => NetworkMessageV::Image(
            blob_lookup(blobs, gcd, BlobDir::Images, row.m_content),
        ),
        MessageType::File => NetworkMessageV::File(
            row.m_content,
            blob_lookup(blobs, gcd, BlobDir::Files, row.m_content),
        ),
        MessageType::Contact => match contact_parts(row.m_content) {
            Some(p) => NetworkMessageV::Contact(
                unescape_name(p.0),
                hex_bytes(p.1),
                hex_bytes(p.2),
                blob_lookup(blobs, gcd, BlobDir::Avatars, avatar_name(hex_bytes(p.1))),
            ),
            None => NetworkMessageV::Empty,
        },
        MessageType::Record => {
            let d = first_dash(row.m_content);
            if d < 0 {
                NetworkMessageV::Record(Seq::empty(), 0)
            } else {
                NetworkMessageV::Record(
                    blob_lookup(blobs, gcd, BlobDir::Records, row.m_content.skip(d + 1)),
                    parse_u32_spec(row.m_content.take(d)),
                )
            }
        },
        MessageType::Emoji => NetworkMessageV::Emoji,
        MessageType::Phone => NetworkMessageV::Phone,
        MessageType::Video => NetworkMessageV::Video,
        MessageType::Invite => NetworkMessageV::Invite(row.m_content),
    }
}

impl Message {
    /// The message row with the given id.
    pub fn get_id<'a>(db: &'a Db, id: i64) -> (r: Result<&'a Message, ServerError>)
        ensures
            match r {
                Ok(m) => 1 <= id <= db@.messages.len() && m@ == db@.messages[id - 1],
                Err(e) => (id < 1 || id > db@.messages.len()) && e == ServerError::NotFound,
            },
    {
        let n: usize = db.messages.len();
        if id < 1 {
            return Err(ServerError::NotFound);
        }
        if id as u64 > n as u64 {
            return Err(ServerError::NotFound);
        }
        let idx: usize = (id - 1) as usize;
        Ok(&db.messages[idx])
    }

    /// Encodes a network message from a live member into a stored message
    /// row plus its blob sidecars, and answers the new row's id.
    ///
    /// The call fails with `NotFound` when the sender is not a live member
    /// of the group, and with `Storage` when an image payload does not
    /// decode; nothing changes then.  Any other payload from a live member
    /// is stored.
    pub fn from_network_message(
        db: &mut Db,
        blobs: &mut Blobs,
        gcd: &GroupId,
        fid: i64,
        m_id: &GroupId,
        msg: &NetworkMessage,
        now_ms: u64,
    ) -> (r: Result<i64, ServerError>)
        requires
            wf_db(old(db)@),
            1 <= fid <= old(db)@.groups.len(),
            old(db)@.messages.len() < i64::MAX,
        ensures
            wf_db(final(db)@),
            ({
                let i = member_index(old(db)@.members, fid, m_id@);
                let live = i >= 0 && !old(db)@.members[i].is_deleted;
                match r {
                    Err(e) => {
                        &&& final(db)@ == old(db)@
                        &&& final(blobs)@ == old(blobs)@
                        &&& (e == ServerError::NotFound <==> !live)
                        &&& e != ServerError::NotFound ==> e == ServerError::Storage && (msg@
                            matches NetworkMessageV::Image(b) && image_width_spec(b) is None)
                    },
                    Ok(id) => {
                        let row = final(db)@.messages.last();
                        &&& live
                        &&& (msg@ matches NetworkMessageV::Image(b) ==> image_width_spec(
                            b,
                        ) is Some)
                        &&& id == old(db)@.messages.len() + 1
                        &&& final(db)@ == (DbV {
                            messages: old(db)@.messages.push(row),
                            ..old(db)@
                        })
                        &&& row.id == id
                        &&& row.fid == fid
                        &&& row.mid == old(db)@.members[i].id
                        &&& row.m_type == msg_type_of(msg@)
                        &&& row.datetime == (now_ms / 1000) as i64
                        &&& (msg@ matches NetworkMessageV::Image(_) ==> row.m_content.len() == 24)
                        &&& encoded_content(msg@, fid, now_ms, row.m_content, row.m_content)
                        &&& final(blobs)@ == encoded_blobs(
                            old(blobs)@,
                            gcd@,
                            fid,
                            now_ms,
                            msg@,
                            row.m_content,
                        )
                    },
                }
            }),
    {
        proof {
            crate::models::lemma_member_index(old(db)@.members, fid, m_id@);
        }
        let mid: i64 = match Member::get(db, fid, m_id) {
            Ok(m) => m.id,
            Err(_) => {
                return Err(ServerError::NotFound);
            },
        };
        let datetime: i64 = (now_ms / 1000) as i64;

        let (m_type, content): (MessageType, String) = match msg {
            NetworkMessage::String(s) => (MessageType::String, s.clone()),
            NetworkMessage::Image(bytes) => {
                let name = match blobs.write_image(gcd, bytes) {
                    Ok(n) => n,
                    Err(e) => {
                        return Err(ServerError::Storage);
                    },
                };
                (MessageType::Image, name)
            },
            NetworkMessage::File(name, bytes) => {
                let stored = blobs.write_file(gcd, name.as_str(), bytes);
                (MessageType::File, stored)
            },
            NetworkMessage::Contact(name, rgid, raddr, avatar) => {
                blobs.write_avatar(gcd, rgid, avatar);
                let mut c = escape_semicolons(name.as_str());
                c.append(";;");
                let ghex = hex_encode(&rgid.0);
                c.append(ghex.as_str());
                c.append(";;");
                let ahex = hex_encode(&raddr.0);
                c.append(ahex.as_str());
                proof {
                    reveal_strlit(";;");
                    assert(";;"@ =~= contact_sep());
                    assert(c@ =~= contact_content(name@, rgid@, raddr@));
                }
                (MessageType::Contact, c)
            },
            NetworkMessage::Record(bytes, t) => {
                let stored = blobs.write_record(gcd, fid, *t, now_ms, bytes);
                (MessageType::Record, stored)
            },
            NetworkMessage::Emoji => (MessageType::Emoji, String::new()),
            NetworkMessage::Phone => (MessageType::Phone, String::new()),
            NetworkMessage::Video => (MessageType::Video, String::new()),
            NetworkMessage::Invite(s) => (MessageType::Invite, s.clone()),
            NetworkMessage::Empty => (MessageType::String, String::new()),
        };

        let n: usize = db.messages.len();
        let id: i64 = (n as i64) + 1;
        let row = Message { id, fid, mid, m_type, m_content: content, datetime };
        let ghost rowv = row@;
        db.messages.push(row);
        proof {
            assert(db@.messages =~= old(db)@.messages.push(rowv));
            assert(db@.managers =~= old(db)@.managers);
            assert(db@.groups =~= old(db)@.groups);
            assert(db@.members =~= old(db)@.members);
            assert(db@.requests =~= old(db)@.requests);
            assert(db@ =~= (DbV { messages: old(db)@.messages.push(rowv), ..old(db)@ }));
            lemma_wf_message_push(old(db)@, rowv);
        }
        Ok(id)
    }

    /// Reads a stored row back into a network message, recovering image,
    /// file, record and avatar bytes from the blob store.  A contact whose
    /// content does not split into three fields reads as `Empty`; one whose
    /// identities are not hex fails.
    pub fn to_network_message(&self, blobs: &Blobs, gcd: &GroupId) -> (r: Result<
        NetworkMessage,
        ServerError,
    >)
        ensures
            r is Ok <==> decode_ok(self@),
            r matches Ok(m) ==> m@ == decoded_msg(self@, blobs@, gcd@),
            r is Err ==> r == Err::<NetworkMessage, ServerError>(ServerError::Storage),
    {
        match self.m_type {
            MessageType::String => Ok(NetworkMessage::String(self.m_content.clone())),
            MessageType::Image => {
                let bytes = blobs.read_image(gcd, self.m_content.as_str());
                Ok(NetworkMessage::Image(bytes))
            },
            MessageType::File => {
                let bytes = blobs.read_file(gcd, self.m_content.as_str());
                Ok(NetworkMessage::File(self.m_content.clone(), bytes))
            },
            MessageType::Contact => {
                let parts = match split3(self.m_content.as_str()) {
                    Some(p) => p,
                    Option::None => {
                        return Ok(NetworkMessage::Empty);
                    },
                };
                let (name_esc, ghexs, ahexs) = parts;
                let gb = match hex_decode(ghexs.as_str()) {
                    Some(b) => b,
                    Option::None => {
                        return Err(ServerError::Storage);
                    },
                };
                let ab = match hex_decode(ahexs.as_str()) {
                    Some(b) => b,
                    Option::None => {
                        return Err(ServerError::Storage);
                    },
                };
                proof {
                    assert(gb@ =~= hex_bytes(ghexs@));
                    assert(ab@ =~= hex_bytes(ahexs@));
                }
                let cname = unescape_semicolons(name_esc.as_str());
                let cgid = GroupId(gb);
                let caddr = PeerAddr(ab);
                let avatar = blobs.read_avatar(gcd, &cgid);
                Ok(NetworkMessage::Contact(cname, cgid, caddr, avatar))
            },
            MessageType::Record => {
                match split_dash(self.m_content.as_str()) {
                    Some(p) => {
                        let (ts, name) = p;
                        let t = parse_u32(ts.as_str());
                        let bytes = blobs.read_record(gcd, name.as_str());
                        Ok(NetworkMessage::Record(bytes, t))
                    },
                    Option::None => Ok(NetworkMessage::Record(Vec::new(), 0)),
                }
            },
            MessageType::Emoji => Ok(NetworkMessage::Emoji),
            MessageType::Phone => Ok(NetworkMessage::Phone),
            MessageType::Video => Ok(NetworkMessage::Video),
            MessageType::Invite => Ok(NetworkMessage::Invite(self.m_content.clone())),
        }
    }
}

/// Round trip of the event codec: a message encoded into a row with its
/// blob sidecars reads back without error as the message it came from.
///
/// The codec's own exceptions: an `Empty` payload is stored as empty text
/// and reads back as `String("")`; a contact name ending in `;` garbles
/// the field separators, so such names are left out; and an empty contact
/// avatar stores nothing, so the store must not already hold an avatar for
/// that contact.
pub proof fn lemma_codec_round_trip(
    m: NetworkMessageV,
    row: MessageRowV,
    pre: Map<(Seq<u8>, BlobDir, Seq<char>), Seq<u8>>,
    gcd: Seq<u8>,
    fid: i64,
    now_ms: u64,
)
    requires
        fid >= 0,
        row.m_type == msg_type_of(m),
        encoded_content(m, fid, now_ms, row.m_content, row.m_content),
        m matches NetworkMessageV::Contact(n, _, _, _) ==> !(n.len() > 0 && n.last() == ';'),
        m matches NetworkMessageV::Contact(_, g, _, av) ==> (av.len() == 0 ==> !pre.dom().contains(
            (gcd, BlobDir::Avatars, avatar_name(g)),
        )),
    ensures
        decode_ok(row),
        decoded_msg(row, encoded_blobs(pre, gcd, fid, now_ms, m, row.m_content), gcd) == (
        if m is Empty {
            NetworkMessageV::String(Seq::<char>::empty())
        } else {
            m
        }),
{
    let c = row.m_content;
    let post = encoded_blobs(pre, gcd, fid, now_ms, m, c);
    match m {
        NetworkMessageV::Record(b, t) => {
            lemma_dec_of_value(t as int);
            let ds = dec_of(t as int);
            let name = record_name(fid as int, now_ms as int);
            assert(c == ds + seq!['-'] + name);
            let d = ds.len() as int;
            assert(c[d] == '-');
            assert forall|j: int| 0 <= j < d implies #[trigger] c[j] != '-' by {
                assert(c[j] == ds[j]);
                assert(dec_val(ds[j]) is Some);
                if ds[j] == '-' {
                    assert(dec_val('-') is None);
                }
            }
            lemma_first_dash_prefix(c, d);
            assert(c.skip(d + 1) =~= name);
            assert(c.take(d) =~= ds);
            assert(parse_u32_spec(ds) == t);
            assert(blob_lookup(post, gcd, BlobDir::Records, name) == b);
        },
        NetworkMessageV::Contact(n, g, a, av) => {
            let e = escape_name(n);
            let hg = hex_of(g);
            let ha = hex_of(a);
            lemma_hex_round_trip(g);
            lemma_hex_round_trip(a);
            lemma_escape_round_trip(n);
            lemma_escape_no_double_semi(n);
            assert(c == e + contact_sep() + hg + contact_sep() + ha);
            let le = e.len() as int;
            let lg = hg.len() as int;
            // The first separator sits right after the escaped name.
            assert(c[le] == ';' && c[le + 1] == ';');
            assert forall|j: int| 0 <= j < le implies !(c[j] == ';' && #[trigger] c[j + 1]
                == ';') by {
                assert(c[j] == e[j]);
                if j + 1 < le {
                    assert(c[j + 1] == e[j + 1]);
                } else {
                    // The boundary pair: the escaped name cannot end in a
                    // bare semicolon.
                    if n.len() == 0 {
                        assert(e.len() == 0);
                    } else {
                        lemma_escape_last(n);
                        assert(e[j] != ';');
                    }
                }
            }
            lemma_first_semi_prefix(c, le);
            let rest = c.skip(le + 2);
            assert(rest =~= hg + contact_sep() + ha);
            // The second separator sits right after the hex identity.
            assert(rest[lg] == ';' && rest[lg + 1] == ';');
            assert forall|j: int| 0 <= j < lg implies !(rest[j] == ';' && #[trigger] rest[j + 1]
                == ';') by {
                assert(rest[j] == hg[j]);
                assert(hex_val(hg[j]) is Some);
                if hg[j] == ';' {
                    assert(hex_val(';') is None);
                }
            }
            lemma_first_semi_prefix(rest, lg);
            let tail = rest.skip(lg + 2);
            assert(tail =~= ha);
            lemma_first_semi(tail);
            if first_semi(tail) >= 0 {
                let i = first_semi(tail);
                assert(tail[i] == ';');
                assert(hex_val(ha[i]) is Some);
                assert(hex_val(';') is None);
                assert(false);
            }
            assert(contact_parts(c) == Some((e, hg, ha)));
            assert(c.take(le) =~= e);
            assert(rest.take(lg) =~= hg);
            assert(decode_ok(row));
            assert(hex_bytes(hg) == g && hex_bytes(ha) == a);
            if av.len() == 0 {
                assert(post == pre);
                assert(blob_lookup(post, gcd, BlobDir::Avatars, avatar_name(g)) =~= av);
            } else {
                assert(blob_lookup(post, gcd, BlobDir::Avatars, avatar_name(g)) == av);
            }
        },
        _ => {},
    }
}

} // verus!
