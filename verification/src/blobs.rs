//! The blob store: avatars, images, thumbnails, files and voice records,
//! keyed by group id, kind and logical name.
//!
//! The store is modelled as a map from `(group id, kind, name)` to the
//! stored bytes.  Reading an absent blob answers the empty byte string and
//! never fails; writes overwrite.  Persisting the tree to a real file
//! system is the transport adapter's job.

use vstd::prelude::*;

use rand::Rng;

use crate::ids::{copy_bytes, GroupId};
use crate::text::{dec_of, hex_of, hex_encode, str_eq, u64_to_dec};
use crate::ServerError;

verus! {

/// The kind of blob, one subdirectory each on disk.
#[derive(Clone, Copy, Debug, PartialEq, Eq, Structural)]
pub enum BlobDir {
    Files,
    Images,
    Thumbs,
    Emojis,
    Records,
    Avatars,
}

/// One stored blob.
pub struct BlobEntry {
    pub gid: GroupId,
    pub dir: BlobDir,
    pub name: String,
    pub data: Vec<u8>,
}

/// The logical key of a stored blob.
pub open spec fn blob_key(e: BlobEntry) -> (Seq<u8>, BlobDir, Seq<char>) {
    (e.gid@, e.dir, e.name@)
}

/// The map a sequence of writes denotes: later writes win.
pub open spec fn blob_map_of(entries: Seq<BlobEntry>) -> Map<
    (Seq<u8>, BlobDir, Seq<char>),
    Seq<u8>,
>
    decreases entries.len(),
{
    if entries.len() == 0 {
        Map::empty()
    } else {
        blob_map_of(entries.drop_last()).insert(blob_key(entries.last()), entries.last().data@)
    }
}

/// What a read of the given key answers: the stored bytes, or the empty
/// byte string when nothing is stored.
pub open spec fn blob_lookup(
    m: Map<(Seq<u8>, BlobDir, Seq<char>), Seq<u8>>,
    gid: Seq<u8>,
    dir: BlobDir,
    name: Seq<char>,
) -> Seq<u8> {
    if m.dom().contains((gid, dir, name)) {
        m[(gid, dir, name)]
    } else {
        Seq::empty()
    }
}

/// The blob store.
pub struct Blobs {
    pub entries: Vec<BlobEntry>,
}

impl View for Blobs {
    type V = Map<(Seq<u8>, BlobDir, Seq<char>), Seq<u8>>;

    open spec fn view(&self) -> Map<(Seq<u8>, BlobDir, Seq<char>), Seq<u8>> {
        blob_map_of(self.entries@)
    }
}

/// Keeping every entry whose key differs from `k`.
pub open spec fn keeps_key(k: (Seq<u8>, BlobDir, Seq<char>)) -> spec_fn(BlobEntry) -> bool {
    |e: BlobEntry| blob_key(e) != k
}

/// Filtering out one key and then folding gives the fold minus that key.
proof fn lemma_blob_map_remove(entries: Seq<BlobEntry>, k: (Seq<u8>, BlobDir, Seq<char>))
    ensures
        blob_map_of(entries.filter(keeps_key(k))) =~= blob_map_of(entries).remove(k),
    decreases entries.len(),
{
    reveal(Seq::filter);
    let f = keeps_key(k);
    if entries.len() == 0 {
        assert(entries.filter(f) =~= entries);
    } else {
        let prefix = entries.drop_last();
        let last = entries.last();
        lemma_blob_map_remove(prefix, k);
        if f(last) {
            assert(entries.filter(f) == prefix.filter(f).push(last));
            assert(entries.filter(f).drop_last() =~= prefix.filter(f));
            assert(entries.filter(f).last() == last);
        } else {
            assert(entries.filter(f) == prefix.filter(f));
        }
    }
}

impl Blobs {
    /// An empty store.
    pub fn new() -> (r: Blobs)
        ensures
            r@ == Map::<(Seq<u8>, BlobDir, Seq<char>), Seq<u8>>::empty(),
    {
        Blobs { entries: Vec::new() }
    }

    /// Reads the blob under the key; absent blobs read as empty.
    pub fn read(&self, gid: &GroupId, dir: BlobDir, name: &str) -> (r: Vec<u8>)
        ensures
            r@ == blob_lookup(self@, gid@, dir, name@),
    {
        let n: usize = self.entries.len();
        let mut i: usize = n;
        proof {
            assert(self.entries@.take(n as int) =~= self.entries@);
        }
        while i > 0
            invariant
                i <= n,
                n == self.entries@.len(),
                blob_lookup(self@, gid@, dir, name@) == blob_lookup(
                    blob_map_of(self.entries@.take(i as int)),
                    gid@,
                    dir,
                    name@,
                ),
            decreases i,
        {
            i = i - 1;
            let e = &self.entries[i];
            proof {
                assert(self.entries@.take(i as int + 1).drop_last() =~= self.entries@.take(
                    i as int,
                ));
                assert(self.entries@.take(i as int + 1).last() == self.entries@[i as int]);
            }
            if e.gid.eq_id(gid) && e.dir == dir && str_eq(e.name.as_str(), name) {
                proof {
                    assert(blob_map_of(self.entries@.take(i as int + 1)).dom().contains(
                        (gid@, dir, name@),
                    ));
                }
                return crate::ids::copy_bytes(&e.data);
            }
        }
        proof {
            assert(self.entries@.take(0) =~= Seq::<BlobEntry>::empty());
        }
        Vec::new()
    }

    /// Stores bytes under the key, overwriting what was there.
    pub fn write(&mut self, gid: GroupId, dir: BlobDir, name: String, data: Vec<u8>) -> (r: ())
        ensures
            final(self)@ == old(self)@.insert((gid@, dir, name@), data@),
    {
        self.entries.push(BlobEntry { gid, dir, name, data });
        proof {
            assert(self.entries@.drop_last() =~= old(self).entries@);
        }
    }

    /// Removes the blob under the key, if any.
    pub fn remove(&mut self, gid: &GroupId, dir: BlobDir, name: &str) -> (r: ())
        ensures
            final(self)@ == old(self)@.remove((gid@, dir, name@)),
    {
        let ghost orig = self.entries@;
        let ghost k = (gid@, dir, name@);
        let ghost f = keeps_key(k);
        let mut i: usize = 0;
        let ghost mut j: int = 0;
        proof {
            reveal(Seq::filter);
            assert(orig.take(0).filter(f) =~= Seq::<BlobEntry>::empty());
            assert(self.entries@ =~= orig.take(0).filter(f) + orig.skip(0));
        }
        while i < self.entries.len()
            invariant
                0 <= j <= orig.len(),
                gid@ == k.0 && dir == k.1 && name@ == k.2,
                f == keeps_key(k),
                self.entries@ == orig.take(j).filter(f) + orig.skip(j),
                i as int == orig.take(j).filter(f).len(),
            decreases self.entries@.len() - i,
        {
            proof {
                assert(orig.skip(j).len() > 0);
                assert(self.entries@[i as int] == orig.skip(j)[0]);
                assert(orig.skip(j)[0] == orig[j]);
            }
            let e = &self.entries[i];
            let matches_key = e.gid.eq_id(gid) && e.dir == dir && str_eq(e.name.as_str(), name);
            proof {
                reveal(Seq::filter);
                assert(orig.take(j + 1).drop_last() =~= orig.take(j));
                assert(orig.take(j + 1).last() == orig[j]);
            }
            if matches_key {
                self.entries.remove(i);
                proof {
                    assert(!f(orig[j]));
                    assert(orig.take(j + 1).filter(f) == orig.take(j).filter(f));
                    assert(self.entries@ =~= orig.take(j + 1).filter(f) + orig.skip(j + 1));
                }
            } else {
                proof {
                    assert(f(orig[j]));
                    assert(orig.take(j + 1).filter(f) == orig.take(j).filter(f).push(orig[j]));
                    assert(self.entries@ =~= orig.take(j + 1).filter(f) + orig.skip(j + 1));
                }
                i += 1;
            }
            proof {
                j = j + 1;
            }
        }
        proof {
            assert(orig.skip(j).len() == 0);
            assert(j == orig.len());
            assert(orig.take(j) =~= orig);
            assert(self.entries@ =~= orig.filter(f));
            lemma_blob_map_remove(orig, k);
        }
    }
}

/// Logical name of a stored avatar: the owner's identity in hex, as a png.
pub open spec fn avatar_name(remote: Seq<u8>) -> Seq<char> {
    hex_of(remote) + seq!['.', 'p', 'n', 'g']
}

/// Logical on-disk name of a voice record.
pub open spec fn record_name(fid: int, ms: int) -> Seq<char> {
    dec_of(fid) + seq!['_'] + dec_of(ms) + seq!['.', 'm', '4', 'a']
}

/// Content stored for a voice record message: the duration, a dash, and the
/// record's logical name.
pub open spec fn record_content(t: int, fid: int, ms: int) -> Seq<char> {
    dec_of(t) + seq!['-'] + record_name(fid, ms)
}

/// Builds the avatar file name for an identity.
pub fn avatar_file(remote: &GroupId) -> (r: String)
    ensures
        r@ == avatar_name(remote@),
{
    let h = hex_encode(&remote.0);
    let r = h.concat(".png");
    proof {
        reveal_strlit(".png");
        assert(r@ =~= avatar_name(remote@));
    }
    r
}

/// Pixel width of an image, when the bytes decode as one.
pub uninterp spec fn image_width_spec(bytes: Seq<u8>) -> Option<u32>;

/// The png bytes of an image rescaled to fit exactly within 120 by 800,
/// aspect ratio kept.
pub uninterp spec fn image_thumb_spec(bytes: Seq<u8>) -> Seq<u8>;

/// Whether a character is an ASCII letter or digit.
pub open spec fn is_ascii_alnum(c: char) -> bool {
    let u = c as int;
    (48 <= u && u <= 57) || (65 <= u && u <= 90) || (97 <= u && u <= 122)
}

/// Relies on image::load_from_memory, GenericImageView::dimensions and
/// DynamicImage::thumbnail: whether the bytes decode, their pixel width and
/// the rescale to fit 120 by 800 all depend on the bytes alone.
#[verifier::external_body]
fn image_probe(bytes: &Vec<u8>) -> (r: Option<(u32, Vec<u8>)>)
    ensures
        r is Some <==> image_width_spec(bytes@) is Some,
        r matches Some(p) ==> image_width_spec(bytes@) == Some(p.0) && p.1@ == image_thumb_spec(
            bytes@,
        ),
{
    let img = match image::load_from_memory(bytes) {
        Ok(i) => i,
        Err(_) => return None,
    };
    let (w, _) = image::GenericImageView::dimensions(&img);
    let scaled = img.thumbnail(120, 800);
    let mut out = std::io::Cursor::new(Vec::new());
    let _ = scaled.write_to(&mut out, image::ImageOutputFormat::Png);
    Some((w, out.into_inner()))
}

/// Relies on rand's thread_rng with the Alphanumeric distribution: twenty
/// samples, each one ASCII letter or digit.  Nothing further can be
/// promised of a random name.
#[verifier::external_body]
fn random_token() -> (r: String)
    ensures
        r@.len() == 20,
        forall|i: int| 0 <= i < r@.len() ==> is_ascii_alnum(#[trigger] r@[i]),
{
    rand::thread_rng()
        .sample_iter(&rand::distributions::Alphanumeric)
        .take(20)
        .map(char::from)
        .collect()
}

impl Blobs {
    /// Reads a stored file by name.
    pub fn read_file(&self, gid: &GroupId, name: &str) -> (r: Vec<u8>)
        ensures
            r@ == blob_lookup(self@, gid@, BlobDir::Files, name@),
    {
        self.read(gid, BlobDir::Files, name)
    }

    /// Stores a file under its own name and answers the logical name.
    pub fn write_file(&mut self, gid: &GroupId, name: &str, bytes: &Vec<u8>) -> (r: String)
        ensures
            r@ == name@,
            final(self)@ == old(self)@.insert((gid@, BlobDir::Files, name@), bytes@),
    {
        let stored = String::from_str(name);
        self.write(gid.duplicate(), BlobDir::Files, stored, copy_bytes(bytes));
        String::from_str(name)
    }

    /// Reads a stored image by its logical name.
    pub fn read_image(&self, gid: &GroupId, name: &str) -> (r: Vec<u8>)
        ensures
            r@ == blob_lookup(self@, gid@, BlobDir::Images, name@),
    {
        self.read(gid, BlobDir::Images, name)
    }

    /// Stores an image under a fresh random name and answers that name.
    /// Sources wider than 100 pixels also get a thumbnail, stored under the
    /// same name among the thumbnails; smaller sources only the full file.
    pub fn write_image(&mut self, gid: &GroupId, bytes: &Vec<u8>) -> (r: Result<String, ServerError>)
        ensures
            r is Ok <==> image_width_spec(bytes@) is Some,
            r is Err ==> final(self)@ == old(self)@ && r == Err::<String, ServerError>(
                ServerError::Storage,
            ),
            r matches Ok(name) ==> {
                &&& name@.len() == 24
                &&& name@.subrange(20, 24) == ".png"@
                &&& forall|i: int| 0 <= i < 20 ==> is_ascii_alnum(#[trigger] name@[i])
                &&& final(self)@ == if image_width_spec(bytes@).unwrap() > 100 {
                    old(self)@.insert(
                        (gid@, BlobDir::Thumbs, name@),
                        image_thumb_spec(bytes@),
                    ).insert((gid@, BlobDir::Images, name@), bytes@)
                } else {
                    old(self)@.insert((gid@, BlobDir::Images, name@), bytes@)
                }
            },
    {
        let probed = match image_probe(bytes) {
            Some(p) => p,
            Option::None => {
                return Err(ServerError::Storage);
            },
        };
        let (width, thumb) = probed;
        let token = random_token();
        let name = token.concat(".png");
        proof {
            reveal_strlit(".png");
            assert(name@.len() == 24);
            assert(name@.subrange(20, 24) =~= ".png"@);
            assert forall|i: int| 0 <= i < 20 implies is_ascii_alnum(#[trigger] name@[i]) by {
                assert(name@[i] == token@[i]);
            }
        }
        if width > 100 {
            self.write(gid.duplicate(), BlobDir::Thumbs, name.clone(), thumb);
        }
        self.write(gid.duplicate(), BlobDir::Images, name.clone(), copy_bytes(bytes));
        Ok(name)
    }

    /// Reads an avatar stored for an identity.
    pub fn read_avatar(&self, gid: &GroupId, remote: &GroupId) -> (r: Vec<u8>)
        ensures
            r@ == blob_lookup(self@, gid@, BlobDir::Avatars, avatar_name(remote@)),
    {
        let name = avatar_file(remote);
        self.read(gid, BlobDir::Avatars, name.as_str())
    }

    /// Stores an avatar for an identity; empty bytes are not stored.
    pub fn write_avatar(&mut self, gid: &GroupId, remote: &GroupId, bytes: &Vec<u8>) -> (r: ())
        ensures
            final(self)@ == if bytes@.len() == 0 {
                old(self)@
            } else {
                old(self)@.insert((gid@, BlobDir::Avatars, avatar_name(remote@)), bytes@)
            },
    {
        if bytes.len() < 1 {
            return ;
        }
        let name = avatar_file(remote);
        self.write(gid.duplicate(), BlobDir::Avatars, name, copy_bytes(bytes));
    }

    /// Removes the avatar stored for an identity, if any.
    pub fn delete_avatar(&mut self, gid: &GroupId, remote: &GroupId) -> (r: ())
        ensures
            final(self)@ == old(self)@.remove((gid@, BlobDir::Avatars, avatar_name(remote@))),
    {
        let name = avatar_file(remote);
        self.remove(gid, BlobDir::Avatars, name.as_str());
    }

    /// Reads a voice record by its logical name.
    pub fn read_record(&self, gid: &GroupId, name: &str) -> (r: Vec<u8>)
        ensures
            r@ == blob_lookup(self@, gid@, BlobDir::Records, name@),
    {
        self.read(gid, BlobDir::Records, name)
    }

    /// Stores a voice record named by row id and timestamp, and answers the
    /// stored content: the duration, a dash, and the record name.
    pub fn write_record(
        &mut self,
        gid: &GroupId,
        fid: i64,
        t: u32,
        now_ms: u64,
        bytes: &Vec<u8>,
    ) -> (r: String)
        requires
            fid >= 0,
        ensures
            r@ == record_content(t as int, fid as int, now_ms as int),
            final(self)@ == old(self)@.insert(
                (gid@, BlobDir::Records, record_name(fid as int, now_ms as int)),
                bytes@,
            ),
    {
        let mut name = u64_to_dec(fid as u64);
        name.append("_");
        let ms = u64_to_dec(now_ms);
        name.append(ms.as_str());
        name.append(".m4a");
        proof {
            reveal_strlit("_");
            reveal_strlit(".m4a");
            assert(name@ =~= record_name(fid as int, now_ms as int));
        }
        let mut content = u64_to_dec(t as u64);
        content.append("-");
        content.append(name.as_str());
        proof {
            reveal_strlit("-");
            assert(content@ =~= record_content(t as int, fid as int, now_ms as int));
        }
        self.write(gid.duplicate(), BlobDir::Records, name, copy_bytes(bytes));
        content
    }
}

} // verus!
