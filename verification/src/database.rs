//! The indexer: consumes parsed records, packs their strings into
//! compressed blobs, and maintains the relational index.
//!
//! The mathematical model ties every show row to the record it was
//! made from: its title is indexed, its integer fields encode the
//! record's date and times, and the two blob addresses point at the
//! record's null-terminated strings inside the (compressed) blobs.

use vstd::prelude::*;
use vstd::string::StringSliceAdditionalSpecFns;
use vstd::utf8::encode_utf8;

use crate::compressor::{compress_of, drained_ok, BackgroundCompressor, Decompressor};
use crate::item::{
    item_wf, julian_day, seconds_of, to_julian_day, Item, ItemModel,
};
use crate::store::{
    blobs_same, channels_same, db_blobs, db_blobs_seq, db_channels, db_shows, db_shows_seq,
    db_titles, db_topics, delete_all_rows, delete_show, delete_title, insert_blob,
    insert_channel, insert_show, insert_title, insert_topic, next_blob_id, read_shows_seq,
    select_blob, select_channel_id,
    select_shows_of_topic, select_topic_id, shows_same, store_same, titles_same, topics_same,
    version_same, ShowRow, TopicRow,
};
use crate::text::{eq_bytes, find_nul_from, first_byte_from, first_byte_from_is_least};
use crate::Error;

verus! {

/// The staging buffer holding titles and descriptions rotates into a
/// fresh blob at this size.
pub const TEXT_BLOB_LEN: usize = 262144;

/// The staging buffer holding the URL fields rotates at this size.
pub const URL_BLOB_LEN: usize = 524288;

/// Bit set in `url_mask` when the row stores a small-variant URL.
pub const URL_SMALL: u32 = 0b01;

/// Bit set in `url_mask` when the row stores a large-variant URL.
pub const URL_LARGE: u32 = 0b10;

/// The null-terminated byte strings a reader finds in `content` from
/// `offset` on: at most `count` of them, fewer if the terminators run
/// out.
pub open spec fn nul_strings_from(content: Seq<u8>, offset: int, count: nat) -> Seq<Seq<u8>>
    decreases count,
{
    if count == 0 {
        Seq::<Seq<u8>>::empty()
    } else {
        match first_byte_from(content, 0u8, offset) {
            None => Seq::<Seq<u8>>::empty(),
            Some(p) => seq![content.subrange(offset, p)] + nul_strings_from(
                content,
                p + 1,
                (count - 1) as nat,
            ),
        }
    }
}

/// `chunk` sits in `content` at `off`.
pub open spec fn chunk_at(content: Seq<u8>, off: int, chunk: Seq<u8>) -> bool {
    0 <= off && off + chunk.len() <= content.len() && content.subrange(off, off + chunk.len())
        == chunk
}

/// The bytes a record contributes to the text blob: title and
/// description, each null-terminated.
pub open spec fn text_chunk(m: ItemModel) -> Seq<u8> {
    encode_utf8(m.title) + seq![0u8] + encode_utf8(m.description) + seq![0u8]
}

/// The bytes a record contributes to the URL blob: the base URL, the
/// mask-selected small and large variants, and the website, each
/// null-terminated.
pub open spec fn url_chunk(m: ItemModel) -> Seq<u8> {
    encode_utf8(m.url) + seq![0u8] + (match m.url_small {
        Some(s) => encode_utf8(s) + seq![0u8],
        None => Seq::<u8>::empty(),
    }) + (match m.url_large {
        Some(s) => encode_utf8(s) + seq![0u8],
        None => Seq::<u8>::empty(),
    }) + encode_utf8(m.website) + seq![0u8]
}

/// The `url_mask` bits a record's optional URLs select.
pub open spec fn mask_of(m: ItemModel) -> u32 {
    if m.url_small is Some && m.url_large is Some {
        3u32
    } else if m.url_small is Some {
        1u32
    } else if m.url_large is Some {
        2u32
    } else {
        0u32
    }
}

/// None of the record's stored strings encodes to a null byte.
pub open spec fn item_nul_free(m: ItemModel) -> bool {
    &&& !encode_utf8(m.title).contains(0u8)
    &&& !encode_utf8(m.description).contains(0u8)
    &&& !encode_utf8(m.url).contains(0u8)
    &&& (m.url_small matches Some(s) ==> !encode_utf8(s).contains(0u8))
    &&& (m.url_large matches Some(s) ==> !encode_utf8(s).contains(0u8))
    &&& !encode_utf8(m.website).contains(0u8)
}

/// The channel and topic a show row was filed under: the topic name,
/// and the channel name when a channel row was in effect.
pub struct ShowLink {
    pub topic: Seq<char>,
    pub channel: Option<Seq<char>>,
}

/// What one show row stands for: the record it was made from and how
/// it was filed.
pub struct ShowModel {
    pub item: ItemModel,
    pub link: Option<ShowLink>,
}

/// The blob identified by `blob_id` exists, and its compressed bytes
/// decompress to content carrying `chunk` at `off`.
pub open spec fn blob_has(c: rusqlite::Connection, blob_id: i64, off: int, chunk: Seq<u8>) -> bool {
    &&& db_blobs(c).contains_key(blob_id)
    &&& exists|s: Seq<u8>|
        db_blobs(c)[blob_id] == compress_of(s) && s.len() <= u32::MAX && #[trigger] chunk_at(
            s,
            off,
            chunk,
        )
}

/// The show row `id` stands for `sm`: the indexed title, the filing,
/// the integer encodings and the two blob addresses all match the
/// record.
pub open spec fn show_matches(c: rusqlite::Connection, id: i64, sm: ShowModel) -> bool {
    let r = db_shows(c)[id];
    let it = sm.item;
    &&& db_titles(c).contains_key(id) && db_titles(c)[id] == it.title
    &&& (sm.link matches Some(l) ==> {
        &&& db_topics(c).contains_key(r.topic_id)
        &&& db_topics(c)[r.topic_id].topic == l.topic
        &&& (l.channel matches Some(cn) ==> db_channels(c).contains_key(
            db_topics(c)[r.topic_id].channel_id,
        ) && db_channels(c)[db_topics(c)[r.topic_id].channel_id] == cn)
    })
    &&& r.date == julian_day(it.date.year as int, it.date.month as int, it.date.day as int)
    &&& r.time == seconds_of(it.time)
    &&& r.duration == seconds_of(it.duration)
    &&& r.url_mask == mask_of(it)
    &&& blob_has(c, r.text_blob_id, r.text_offset as int, text_chunk(it))
    &&& blob_has(c, r.url_blob_id, r.url_offset as int, url_chunk(it))
    &&& item_wf(it)
    &&& item_nul_free(it)
}

/// The whole index agrees with the model `m`: the shows and the title
/// index hold exactly the modelled ids, every id is within the row
/// sequence, every blob id is within the blob sequence, and each row
/// stands for its model entry.
pub open spec fn db_matches(c: rusqlite::Connection, m: Map<i64, ShowModel>) -> bool {
    &&& db_shows(c).dom() == m.dom()
    &&& db_titles(c).dom() == m.dom()
    &&& forall|id: i64| #[trigger] m.contains_key(id) ==> id <= db_shows_seq(c)
    &&& forall|id: i64| #[trigger] db_blobs(c).contains_key(id) ==> id <= db_blobs_seq(c)
    &&& forall|id: i64| #[trigger] m.contains_key(id) ==> show_matches(c, id, m[id])
    &&& channels_unique(c)
    &&& topics_unique(c)
}

/// No two channel rows share a name.
pub open spec fn channels_unique(c: rusqlite::Connection) -> bool {
    forall|c1: i64, c2: i64|
        #![trigger db_channels(c).index(c1), db_channels(c).index(c2)]
        db_channels(c).contains_key(c1) && db_channels(c).contains_key(c2) && db_channels(c)[c1]
            == db_channels(c)[c2] ==> c1 == c2
}

/// No two topic rows share a name under one channel row.
pub open spec fn topics_unique(c: rusqlite::Connection) -> bool {
    forall|t1: i64, t2: i64|
        #![trigger db_topics(c).index(t1), db_topics(c).index(t2)]
        db_topics(c).contains_key(t1) && db_topics(c).contains_key(t2) && db_topics(c)[t1].topic
            == db_topics(c)[t2].topic && db_topics(c)[t1].channel_id == db_topics(c)[t2].channel_id
            ==> t1 == t2
}

/// Some model fits the index.
pub open spec fn db_consistent(c: rusqlite::Connection) -> bool {
    exists|m: Map<i64, ShowModel>| db_matches(c, m)
}

/// In content that carries a null-free string followed by a null
/// terminator, the first null after the string's offset is the
/// terminator.
proof fn first_nul_after_string(content: Seq<u8>, off: int, s1: Seq<u8>)
    requires
        0 <= off,
        off + s1.len() < content.len(),
        content.subrange(off, off + s1.len()) == s1,
        content[off + s1.len()] == 0u8,
        !s1.contains(0u8),
    ensures
        first_byte_from(content, 0u8, off) == Some(off + s1.len()),
{
    first_byte_from_is_least(content, 0u8, off);
    match first_byte_from(content, 0u8, off) {
        Some(i) => {
            if i < off + s1.len() {
                assert(s1[i - off] == content[i]);
                assert(s1.contains(0u8));
                assert(false);
            }
            if i > off + s1.len() {
                assert(false);
            }
        },
        None => {
            assert(false);
        },
    }
}

/// Reading one string from content carrying `s1` null-terminated at
/// `off` yields `s1` and continues past the terminator.
proof fn nul_strings_step(content: Seq<u8>, off: int, s1: Seq<u8>, count: nat)
    requires
        0 <= off,
        off + s1.len() < content.len(),
        content.subrange(off, off + s1.len()) == s1,
        content[off + s1.len()] == 0u8,
        !s1.contains(0u8),
        count > 0,
    ensures
        nul_strings_from(content, off, count) == seq![s1] + nul_strings_from(
            content,
            off + s1.len() + 1,
            (count - 1) as nat,
        ),
{
    first_nul_after_string(content, off, s1);
}

/// A chunk of one null-terminated string reads back as that string
/// first.
pub proof fn read_first_string(content: Seq<u8>, off: int, s1: Seq<u8>, rest: Seq<u8>)
    requires
        chunk_at(content, off, s1 + seq![0u8] + rest),
        !s1.contains(0u8),
    ensures
        nul_strings_from(content, off, 1) == seq![s1],
{
    let chunk = s1 + seq![0u8] + rest;
    assert(content.subrange(off, off + s1.len()) =~= s1) by {
        assert forall|j: int| 0 <= j < s1.len() implies content[off + j] == s1[j] by {
            assert(content.subrange(off, off + chunk.len())[j] == chunk[j]);
        }
    }
    assert(content[off + s1.len()] == 0u8) by {
        assert(content.subrange(off, off + chunk.len())[s1.len() as int] == chunk[s1.len() as int]);
    }
    nul_strings_step(content, off, s1, 1);
    assert(nul_strings_from(content, off, 1) =~= seq![s1]);
}

/// The byte vectors read out of a blob are exactly the expected byte
/// strings.
pub open spec fn strings_match(v: Seq<Vec<u8>>, strs: Seq<Seq<u8>>) -> bool {
    v.len() == strs.len() && forall|k: int| 0 <= k < strs.len() ==> (#[trigger] v[k])@ == strs[k]
}

/// Caches the most recently decompressed blob and reads
/// null-terminated strings out of it.
pub struct BlobFetcher {
    blob_id: Option<i64>,
    decompr: Decompressor,
}

impl BlobFetcher {
    /// Whatever the cache holds agrees with the blobs of `c`.
    pub open spec fn wf(self, c: rusqlite::Connection) -> bool {
        match self.cached() {
            Some(id) => db_blobs(c).contains_key(id) && forall|s: Seq<u8>|
                (db_blobs(c)[id] == compress_of(s) && s.len() <= u32::MAX) ==> self.content()
                    == s,
            None => true,
        }
    }

    /// The id of the cached blob.
    pub closed spec fn cached(self) -> Option<i64> {
        self.blob_id
    }

    /// The decompressed content of the cached blob.
    pub closed spec fn content(self) -> Seq<u8> {
        self.decompr@
    }

    pub fn new() -> (r: BlobFetcher)
        ensures
            r.cached() is None,
    {
        BlobFetcher { blob_id: None, decompr: Decompressor::new() }
    }

    /// Reads up to `count` null-terminated strings of blob `blob_id`
    /// starting at `offset`, decompressing and caching the blob if it
    /// is not the cached one.
    pub fn fetch(
        &mut self,
        c: &rusqlite::Connection,
        blob_id: i64,
        offset: u32,
        count: usize,
    ) -> (r: Result<Vec<Vec<u8>>, Error>)
        ensures
            old(self).wf(*c) ==> final(self).wf(*c),
            r matches Ok(v) ==> forall|s: Seq<u8>|
                #![auto]
                (old(self).wf(*c) && db_blobs(*c).contains_key(blob_id) && db_blobs(*c)[blob_id]
                    == compress_of(s) && s.len() <= u32::MAX) ==> strings_match(
                    v@,
                    nul_strings_from(s, offset as int, count as nat),
                ),
            old(self).wf(*c) && !db_blobs(*c).contains_key(blob_id) ==> (r == Err::<
                Vec<Vec<u8>>,
                Error,
            >(Error::MissingBlob(blob_id)) || r == Err::<Vec<Vec<u8>>, Error>(Error::SqlError)),
            r is Err ==> final(self).cached() == old(self).cached() && final(self).content()
                == old(self).content(),
            r matches Err(e) ==> (e matches Error::MissingBlob(b) ==> b == blob_id && !db_blobs(
                *c,
            ).contains_key(blob_id)),
            r matches Err(e) ==> (e == Error::SqlError || e == Error::UnknownFrameSize || e
                == Error::DecompressError || e matches Error::MissingBlob(_)),
    {
        let cache_hit: bool = match self.blob_id {
            Some(id) => id == blob_id,
            None => false,
        };
        if !cache_hit {
            let frame = match select_blob(c, blob_id) {
                Ok(Some(f)) => f,
                Ok(None) => {
                    return Err(Error::MissingBlob(blob_id));
                },
                Err(e) => {
                    return Err(e);
                },
            };
            match self.decompr.decompress(frame.as_slice()) {
                Ok(()) => {},
                Err(e) => {
                    return Err(e);
                },
            }
            self.blob_id = Some(blob_id);
        }
        let buf = self.decompr.buf();
        let blen = buf.len();
        let mut out: Vec<Vec<u8>> = Vec::new();
        let ghost content = self.decompr@;
        if (offset as usize) > buf.len() {
            proof {
                assert forall|s: Seq<u8>|
                    (old(self).wf(*c) && db_blobs(*c).contains_key(blob_id) && db_blobs(
                        *c,
                    )[blob_id] == compress_of(s) && s.len() <= u32::MAX) implies s == content by {}
                first_byte_from_is_least(content, 0u8, offset as int);
            }
            return Ok(out);
        }
        let ghost snap = *self;
        let mut off: usize = offset as usize;
        let mut k: usize = 0;
        while k < count
            invariant
                *self == snap,
                blen == content.len(),
                off <= content.len(),
                content == self.decompr@,
                buf@ == content,
                k <= count,
                nul_strings_from(content, offset as int, count as nat) =~= out@.map_values(
                    |b: Vec<u8>| b@,
                ) + nul_strings_from(content, off as int, (count - k) as nat),
                out@.len() == k,
            ensures
                *self == snap,
                nul_strings_from(content, offset as int, count as nat) =~= out@.map_values(
                    |b: Vec<u8>| b@,
                ),
            decreases count - k,
        {
            match find_nul_from(buf, off) {
                None => {
                    proof {
                        first_byte_from_is_least(content, 0u8, off as int);
                        assert(nul_strings_from(content, off as int, (count - k) as nat) =~= Seq::<
                            Seq<u8>,
                        >::empty());
                    }
                    break ;
                },
                Some(p) => {
                    let piece = crate::text::copy_range(buf, off, p);
                    out.push(piece);
                    proof {
                        assert(out@.map_values(|b: Vec<u8>| b@) =~= out@.subrange(
                            0,
                            out@.len() - 1,
                        ).map_values(|b: Vec<u8>| b@) + seq![content.subrange(
                            off as int,
                            p as int,
                        )]) by {
                            assert(out@.subrange(0, out@.len() - 1).map_values(|b: Vec<u8>| b@)
                                =~= out@.map_values(|b: Vec<u8>| b@).subrange(0, out@.len() - 1));
                        }
                    }
                    off = p + 1;
                    k = k + 1;
                },
            }
        }
        proof {
            assert forall|s: Seq<u8>|
                (old(self).wf(*c) && db_blobs(*c).contains_key(blob_id) && db_blobs(*c)[blob_id]
                    == compress_of(s) && s.len() <= u32::MAX) implies s == content by {}
        }
        Ok(out)
    }
}


#[verifier::external_type_specification]
#[verifier::external_body]
#[verifier::reject_recursive_types(T)]
pub struct ExReceiver<T>(std::sync::mpsc::Receiver<T>);

/// The records an item source will deliver, in order: what is queued
/// now and whatever its senders will still send.
pub uninterp spec fn src_items(s: ItemSource) -> Seq<Item>;

/// The indexer's input: the receiving end of the channel the parser
/// thread feeds.
pub struct ItemSource {
    rx: std::sync::mpsc::Receiver<Item>,
}

impl ItemSource {
    /// The records still to be delivered, in order.
    pub open spec fn model(self) -> Seq<Item> {
        src_items(self)
    }

    pub fn new(rx: std::sync::mpsc::Receiver<Item>) -> (r: ItemSource) {
        ItemSource { rx }
    }

    /// Relies on the channel's blocking `recv`: the next record in
    /// order, or nothing once every sender is gone and the queue is
    /// drained.
    #[verifier::external_body]
    pub fn recv(&mut self) -> (r: Option<Item>)
        ensures
            r matches Some(item) ==> src_items(*old(self)).len() > 0 && item == src_items(
                *old(self),
            )[0] && src_items(*final(self)) == src_items(*old(self)).drop_first(),
            r is None ==> src_items(*old(self)).len() == 0 && src_items(*final(self))
                == src_items(*old(self)),
    {
        self.rx.recv().ok()
    }
}

/// Finds or creates the channel row named `name`.
fn get_or_insert_channel(c: &mut rusqlite::Connection, name: &str) -> (r: Result<i64, Error>)
    ensures
        r matches Ok(id) ==> {
            &&& db_channels(*final(c)).contains_key(id)
            &&& db_channels(*final(c))[id] == name@
            &&& map_extends(db_channels(*old(c)), db_channels(*final(c)))
            &&& (db_channels(*final(c)) == db_channels(*old(c)) || (0 < id && !db_channels(
                *old(c),
            ).contains_key(id) && (forall|j: i64| #[trigger]
                db_channels(*old(c)).contains_key(j) ==> db_channels(*old(c))[j] != name@)
                && db_channels(*final(c)) == db_channels(*old(c)).insert(id, name@)))
            &&& topics_same(*old(c), *final(c))
            &&& shows_same(*old(c), *final(c))
            &&& titles_same(*old(c), *final(c))
            &&& blobs_same(*old(c), *final(c))
            &&& version_same(*old(c), *final(c))
        },
        r is Err ==> store_same(*old(c), *final(c)),
        r matches Err(e) ==> e == Error::SqlError,
{
    match select_channel_id(c, name) {
        Ok(Some(id)) => Ok(id),
        Ok(None) => insert_channel(c, name),
        Err(e) => Err(e),
    }
}

/// Finds or creates the topic row named `topic` under `channel_id`.
fn get_or_insert_topic(c: &mut rusqlite::Connection, topic: &str, channel_id: i64) -> (r: Result<
    i64,
    Error,
>)
    ensures
        r matches Ok(id) ==> {
            &&& db_topics(*final(c)).contains_key(id)
            &&& db_topics(*final(c))[id].topic == topic@
            &&& db_topics(*final(c))[id].channel_id == channel_id
            &&& map_extends(db_topics(*old(c)), db_topics(*final(c)))
            &&& (db_topics(*final(c)) == db_topics(*old(c)) || (0 < id && !db_topics(
                *old(c),
            ).contains_key(id) && (forall|j: i64| #[trigger]
                db_topics(*old(c)).contains_key(j) ==> !(db_topics(*old(c))[j].topic == topic@
                    && db_topics(*old(c))[j].channel_id == channel_id)) && db_topics(*final(c))
                == db_topics(*old(c)).insert(id, TopicRow { topic: topic@, channel_id })))
            &&& channels_same(*old(c), *final(c))
            &&& shows_same(*old(c), *final(c))
            &&& titles_same(*old(c), *final(c))
            &&& blobs_same(*old(c), *final(c))
            &&& version_same(*old(c), *final(c))
        },
        r is Err ==> store_same(*old(c), *final(c)),
        r matches Err(e) ==> e == Error::SqlError,
{
    match select_topic_id(c, topic, channel_id) {
        Ok(Some(id)) => Ok(id),
        Ok(None) => insert_topic(c, topic, channel_id),
        Err(e) => Err(e),
    }
}

/// The row the indexer writes for a record, given the filing and the
/// two staged offsets.
pub open spec fn made_row(
    topic_id: i64,
    text_blob_id: i64,
    text_off: int,
    url_blob_id: i64,
    url_off: int,
    m: ItemModel,
) -> ShowRow {
    ShowRow {
        topic_id,
        text_blob_id,
        text_offset: text_off as u32,
        url_blob_id,
        url_offset: url_off as u32,
        url_mask: mask_of(m),
        date: julian_day(m.date.year as int, m.date.month as int, m.date.day as int) as i64,
        time: seconds_of(m.time) as u32,
        duration: seconds_of(m.duration) as u32,
    }
}

/// Some string the record would push into a blob holds a null
/// character.
pub open spec fn item_has_nul(m: ItemModel) -> bool {
    !item_nul_free(m)
}

/// Stages the record's strings and writes its show row and title
/// index entry.  A record whose strings hold a null character is
/// refused before any row is written.
#[verifier::rlimit(50)]
fn insert_show_and_title(
    c: &mut rusqlite::Connection,
    topic_id: i64,
    text_blob_id: i64,
    text_compr: &mut BackgroundCompressor,
    url_blob_id: i64,
    url_compr: &mut BackgroundCompressor,
    item: &Item,
) -> (r: Result<i64, Error>)
    requires
        item_wf(item@),
    ensures
        r matches Ok(id) ==> {
            &&& item_nul_free(item@)
            &&& id == db_shows_seq(*old(c)) + 1
            &&& !db_shows(*old(c)).contains_key(id)
            &&& db_shows(*final(c)) == db_shows(*old(c)).insert(
                id,
                made_row(
                    topic_id,
                    text_blob_id,
                    old(text_compr).staged().len() as int,
                    url_blob_id,
                    old(url_compr).staged().len() as int,
                    item@,
                ),
            )
            &&& db_shows_seq(*final(c)) == id
            &&& (!db_titles(*old(c)).contains_key(id) ==> db_titles(*final(c)) == db_titles(
                *old(c),
            ).insert(id, item@.title))
            &&& final(text_compr).staged() == old(text_compr).staged() + text_chunk(item@)
            &&& final(text_compr).jobs() == old(text_compr).jobs()
            &&& final(url_compr).staged() == old(url_compr).staged() + url_chunk(item@)
            &&& final(url_compr).jobs() == old(url_compr).jobs()
            &&& old(text_compr).staged().len() + text_chunk(item@).len() <= u32::MAX
            &&& old(url_compr).staged().len() + url_chunk(item@).len() <= u32::MAX
            &&& channels_same(*old(c), *final(c))
            &&& topics_same(*old(c), *final(c))
            &&& blobs_same(*old(c), *final(c))
            &&& version_same(*old(c), *final(c))
        },
        r is Err ==> {
            &&& channels_same(*old(c), *final(c))
            &&& topics_same(*old(c), *final(c))
            &&& blobs_same(*old(c), *final(c))
            &&& version_same(*old(c), *final(c))
            &&& final(text_compr).jobs() == old(text_compr).jobs()
            &&& final(url_compr).jobs() == old(url_compr).jobs()
            &&& old(text_compr).staged().is_prefix_of(final(text_compr).staged())
            &&& old(url_compr).staged().is_prefix_of(final(url_compr).staged())
        },
        r == Err::<i64, Error>(Error::EmbeddedNul) ==> shows_same(*old(c), *final(c))
            && titles_same(*old(c), *final(c)) && blobs_same(*old(c), *final(c)),
        r matches Err(e) ==> (e == Error::EmbeddedNul || e == Error::CompressError || e
            == Error::SqlError),
        item_has_nul(item@) ==> !(r is Ok),
        r == Err::<i64, Error>(Error::EmbeddedNul) ==> item_has_nul(item@),
{
    let text_offset = match text_compr.push(item.title.as_str()) {
        Ok(off) => off,
        Err(e) => {
            proof {
                if item@.title.contains('\0') {
                    crate::compressor::nul_free_encoding(item@.title);
                }
            }
            return Err(e);
        },
    };
    proof {
        crate::compressor::nul_free_encoding(item@.title);
    }
    match text_compr.push(item.description.as_str()) {
        Ok(_) => {},
        Err(e) => {
            proof {
                if item@.description.contains('\0') {
                    crate::compressor::nul_free_encoding(item@.description);
                }
            }
            return Err(e);
        },
    }
    proof {
        crate::compressor::nul_free_encoding(item@.description);
        assert(final(text_compr).staged() =~= old(text_compr).staged() + text_chunk(item@));
    }
    let url_offset = match url_compr.push(item.url.as_str()) {
        Ok(off) => off,
        Err(e) => {
            proof {
                if item@.url.contains('\0') {
                    crate::compressor::nul_free_encoding(item@.url);
                }
            }
            return Err(e);
        },
    };
    proof {
        crate::compressor::nul_free_encoding(item@.url);
    }
    let mut url_mask: u32 = 0;
    match &item.url_small {
        Some(url_small) => {
            match url_compr.push(url_small.as_str()) {
                Ok(_) => {},
                Err(e) => {
                    proof {
                        if item@.url_small->Some_0.contains('\0') {
                            crate::compressor::nul_free_encoding(item@.url_small->Some_0);
                        }
                    }
                    return Err(e);
                },
            }
            proof {
                crate::compressor::nul_free_encoding(item@.url_small->Some_0);
            }
            url_mask = url_mask | URL_SMALL;
        },
        None => {},
    }
    match &item.url_large {
        Some(url_large) => {
            match url_compr.push(url_large.as_str()) {
                Ok(_) => {},
                Err(e) => {
                    proof {
                        if item@.url_large->Some_0.contains('\0') {
                            crate::compressor::nul_free_encoding(item@.url_large->Some_0);
                        }
                    }
                    return Err(e);
                },
            }
            proof {
                crate::compressor::nul_free_encoding(item@.url_large->Some_0);
            }
            url_mask = url_mask | URL_LARGE;
        },
        None => {},
    }
    match url_compr.push(item.website.as_str()) {
        Ok(_) => {},
        Err(e) => {
            proof {
                if item@.website.contains('\0') {
                    crate::compressor::nul_free_encoding(item@.website);
                }
            }
            return Err(e);
        },
    }
    proof {
        crate::compressor::nul_free_encoding(item@.website);
        assert(final(url_compr).staged() =~= old(url_compr).staged() + url_chunk(item@));
        assert(0u32 | 1u32 == 1u32) by (bit_vector);
        assert(0u32 | 2u32 == 2u32) by (bit_vector);
        assert(1u32 | 2u32 == 3u32) by (bit_vector);
        assert(url_mask == mask_of(item@));
    }
    let row = ShowRow {
        topic_id,
        text_blob_id,
        text_offset,
        url_blob_id,
        url_offset,
        url_mask,
        date: to_julian_day(&item.date),
        time: item.time.seconds(),
        duration: item.duration.seconds(),
    };
    let id = match insert_show(c, &row) {
        Ok(id) => id,
        Err(e) => {
            return Err(e);
        },
    };
    match insert_title(c, id, item.title.as_str()) {
        Ok(()) => Ok(id),
        Err(e) => Err(e),
    }
}


/// Every entry of `m1` is an entry of `m2`.
pub open spec fn map_extends<K, V>(m1: Map<K, V>, m2: Map<K, V>) -> bool {
    forall|k: K| #[trigger] m1.contains_key(k) ==> m2.contains_key(k) && m2[k] == m1[k]
}

/// The rows of a topic that a partial update holds an incoming record
/// against: those whose stored title and base URL equal the record's.
pub open spec fn triple_matches(sm: ShowModel, title: Seq<char>, url: Seq<char>) -> bool {
    sm.item.title == title && sm.item.url == url
}

/// What a partial update knows of the pre-existing rows it may delete:
/// each fits its model entry, ids stay within the row sequence, and
/// the table domains agree with the model.
pub open spec fn dedup_pre(
    c: rusqlite::Connection,
    m: Map<i64, ShowModel>,
    max_id: i64,
) -> bool {
    &&& db_shows(c).dom() == m.dom()
    &&& db_titles(c).dom() == m.dom()
    &&& forall|id: i64| #[trigger] m.contains_key(id) ==> id <= db_shows_seq(c)
    &&& forall|id: i64|
        #[trigger] m.contains_key(id) && id <= max_id ==> show_matches(c, id, m[id])
}

/// Deletes the first pre-existing show of `topic_id` (in id order, up
/// to `max_id`) whose stored title and URL equal the given ones, with
/// its title index entry, and reports which row was deleted.
#[verifier::rlimit(100)]
#[verifier::loop_isolation(false)]
fn dedup_show(
    c: &mut rusqlite::Connection,
    topic_id: i64,
    title: &str,
    url: &str,
    max_id: i64,
    text_fetcher: &mut BlobFetcher,
    url_fetcher: &mut BlobFetcher,
    Ghost(modeled): Ghost<bool>,
    Ghost(m): Ghost<Map<i64, ShowModel>>,
) -> (r: Result<Option<i64>, Error>)
    requires
        modeled ==> dedup_pre(*old(c), m, max_id) && old(text_fetcher).wf(*old(c)) && old(
            url_fetcher,
        ).wf(*old(c)),
    ensures
        r is Ok ==> channels_same(*old(c), *final(c)) && topics_same(*old(c), *final(c))
            && blobs_same(*old(c), *final(c)) && version_same(*old(c), *final(c))
            && db_shows_seq(*final(c)) == db_shows_seq(*old(c)),
        r matches Err(e) ==> (e == Error::SqlError || e == Error::UnknownFrameSize || e
            == Error::DecompressError || e matches Error::MissingBlob(_)),
        modeled ==> (r matches Ok(d) ==> {
            &&& final(text_fetcher).wf(*final(c))
            &&& final(url_fetcher).wf(*final(c))
            &&& channels_same(*old(c), *final(c))
            &&& topics_same(*old(c), *final(c))
            &&& blobs_same(*old(c), *final(c))
            &&& version_same(*old(c), *final(c))
            &&& db_shows_seq(*final(c)) == db_shows_seq(*old(c))
            &&& match d {
                None => {
                    &&& db_shows(*final(c)) == db_shows(*old(c))
                    &&& db_titles(*final(c)) == db_titles(*old(c))
                    &&& forall|id: i64|
                        #[trigger] m.contains_key(id) && id <= max_id && db_shows(
                            *old(c),
                        )[id].topic_id == topic_id ==> !triple_matches(m[id], title@, url@)
                },
                Some(id) => {
                    &&& m.contains_key(id)
                    &&& id <= max_id
                    &&& db_shows(*old(c))[id].topic_id == topic_id
                    &&& triple_matches(m[id], title@, url@)
                    &&& db_shows(*final(c)) == db_shows(*old(c)).remove(id)
                    &&& db_titles(*final(c)) == db_titles(*old(c)).remove(id)
                    &&& forall|id2: i64| #[trigger]
                        m.contains_key(id2) && id2 < id && id2 <= max_id && db_shows(
                            *old(c),
                        )[id2].topic_id == topic_id ==> !triple_matches(m[id2], title@, url@)
                },
            }
        }),
{
    let ghost c0 = *old(c);
    let rows = match select_shows_of_topic(c, topic_id, max_id) {
        Ok(rows) => rows,
        Err(e) => {
            return Err(e);
        },
    };
    let mut k: usize = 0;
    while k < rows.len()
        invariant
            *c == c0,
            modeled ==> dedup_pre(*c, m, max_id) && text_fetcher.wf(*c) && url_fetcher.wf(*c),
            k <= rows@.len(),
            forall|kk: int|
                0 <= kk < rows@.len() ==> {
                    let p = #[trigger] rows@[kk];
                    &&& db_shows(c0).contains_key(p.0)
                    &&& db_shows(c0)[p.0] == p.1
                    &&& p.1.topic_id == topic_id
                    &&& p.0 <= max_id
                },
            forall|id: i64|
                db_shows(c0).contains_key(id) && (#[trigger] db_shows(c0)[id]).topic_id
                    == topic_id && id <= max_id ==> exists|kk: int|
                    0 <= kk < rows@.len() && (#[trigger] rows@[kk]).0 == id,
            modeled ==> forall|kk: int|
                0 <= kk < k ==> !triple_matches(
                    m[(#[trigger] rows@[kk]).0],
                    title@,
                    url@,
                ),
        decreases rows@.len() - k,
    {
        let row_id = rows[k].0;
        let srow = rows[k].1;
        let ghost sm = m[row_id];
        proof {
            if modeled {
                assert(m.contains_key(row_id));
                assert(show_matches(*c, row_id, sm));
                assert(text_chunk(sm.item) =~= encode_utf8(sm.item.title) + seq![0u8] + (
                encode_utf8(sm.item.description) + seq![0u8]));
            }
        }
        let texts = match text_fetcher.fetch(c, srow.text_blob_id, srow.text_offset, 1) {
            Ok(v) => v,
            Err(e) => {
                return Err(e);
            },
        };
        proof {
            if modeled {
                let s = choose|s: Seq<u8>|
                    db_blobs(*c)[srow.text_blob_id] == compress_of(s) && s.len() <= u32::MAX
                        && #[trigger] chunk_at(s, srow.text_offset as int, text_chunk(sm.item));
                read_first_string(
                    s,
                    srow.text_offset as int,
                    encode_utf8(sm.item.title),
                    encode_utf8(sm.item.description) + seq![0u8],
                );
                assert(strings_match(texts@, nul_strings_from(s, srow.text_offset as int, 1)));
                assert(texts@[0]@ == encode_utf8(sm.item.title));
            }
        }
        if texts.len() < 1 {
            return Err(Error::SqlError);
        }
        if !eq_bytes(texts[0].as_slice(), title.as_bytes()) {
            proof {
                if modeled {
                    if sm.item.title == title@ {
                        assert(texts@[0]@ == encode_utf8(title@));
                        assert(false);
                    }
                }
            }
            k = k + 1;
            continue ;
        }
        proof {
            if modeled {
                vstd::utf8::encode_utf8_decode_utf8(sm.item.title);
                vstd::utf8::encode_utf8_decode_utf8(title@);
                assert(sm.item.title == title@);
                assert(url_chunk(sm.item) =~= encode_utf8(sm.item.url) + seq![0u8] + ((match sm
                    .item
                    .url_small {
                    Some(s) => encode_utf8(s) + seq![0u8],
                    None => Seq::<u8>::empty(),
                }) + (match sm.item.url_large {
                    Some(s) => encode_utf8(s) + seq![0u8],
                    None => Seq::<u8>::empty(),
                }) + encode_utf8(sm.item.website) + seq![0u8]));
            }
        }
        let urls = match url_fetcher.fetch(c, srow.url_blob_id, srow.url_offset, 1) {
            Ok(v) => v,
            Err(e) => {
                return Err(e);
            },
        };
        proof {
            if modeled {
                let s = choose|s: Seq<u8>|
                    db_blobs(*c)[srow.url_blob_id] == compress_of(s) && s.len() <= u32::MAX
                        && #[trigger] chunk_at(s, srow.url_offset as int, url_chunk(sm.item));
                read_first_string(
                    s,
                    srow.url_offset as int,
                    encode_utf8(sm.item.url),
                    (match sm.item.url_small {
                        Some(s) => encode_utf8(s) + seq![0u8],
                        None => Seq::<u8>::empty(),
                    }) + (match sm.item.url_large {
                        Some(s) => encode_utf8(s) + seq![0u8],
                        None => Seq::<u8>::empty(),
                    }) + encode_utf8(sm.item.website) + seq![0u8],
                );
                assert(urls@[0]@ == encode_utf8(sm.item.url));
            }
        }
        if urls.len() < 1 {
            return Err(Error::SqlError);
        }
        if !eq_bytes(urls[0].as_slice(), url.as_bytes()) {
            proof {
                if modeled {
                    if sm.item.url == url@ {
                        assert(urls@[0]@ == encode_utf8(url@));
                        assert(false);
                    }
                }
            }
            k = k + 1;
            continue ;
        }
        proof {
            if modeled {
                vstd::utf8::encode_utf8_decode_utf8(sm.item.url);
                vstd::utf8::encode_utf8_decode_utf8(url@);
                assert(sm.item.url == url@);
                assert(db_titles(*c).contains_key(row_id) && db_titles(*c)[row_id] == title@);
            }
        }
        match delete_show(c, row_id) {
            Ok(()) => {},
            Err(e) => {
                return Err(e);
            },
        }
        match delete_title(c, row_id, title) {
            Ok(()) => {},
            Err(e) => {
                return Err(e);
            },
        }
        proof {
            if modeled {
                assert forall|id2: i64| #[trigger]
                    m.contains_key(id2) && id2 < row_id && id2 <= max_id && db_shows(
                        c0,
                    )[id2].topic_id == topic_id implies !triple_matches(m[id2], title@, url@) by {
                    let kk2 = choose|kk2: int|
                        0 <= kk2 < rows@.len() && (#[trigger] rows@[kk2]).0 == id2;
                    if kk2 > k {
                        assert(rows@[k as int].0 < rows@[kk2].0);
                    }
                    assert(kk2 < k);
                }
            }
        }
        return Ok(Some(row_id));
    }
    Ok(None)
}


/// The record models of a sequence of records.
pub open spec fn models_of(items: Seq<Item>) -> Seq<ItemModel> {
    items.map_values(|it: Item| it@)
}

/// The channel name in effect after the first `n` records: the channel
/// of the latest record that named one.
pub open spec fn channel_state(src: Seq<ItemModel>, n: int) -> Option<Seq<char>>
    decreases n,
{
    if n <= 0 || n > src.len() {
        None::<Seq<char>>
    } else if src[n - 1].channel.len() > 0 {
        Some(src[n - 1].channel)
    } else {
        channel_state(src, n - 1)
    }
}

/// The filing in effect after the first `n` records: the topic of the
/// latest record that named one, under the channel in effect then.
pub open spec fn link_state(src: Seq<ItemModel>, n: int) -> Option<ShowLink>
    decreases n,
{
    if n <= 0 || n > src.len() {
        None::<ShowLink>
    } else if src[n - 1].topic.len() > 0 {
        Some(ShowLink { topic: src[n - 1].topic, channel: channel_state(src, n) })
    } else {
        link_state(src, n - 1)
    }
}

/// The non-empty channel names among the first `i` records.
pub open spec fn channel_names(src: Seq<ItemModel>, i: int) -> Set<Seq<char>> {
    Set::new(
        |n: Seq<char>| n.len() > 0 && exists|k: int| 0 <= k < i && (#[trigger] src[k]).channel == n,
    )
}

/// The filings the first `i` records use: each record with a topic,
/// under the channel in effect when it arrived.
pub open spec fn filing_pairs(src: Seq<ItemModel>, i: int) -> Set<(Seq<char>, Option<Seq<char>>)> {
    Set::new(
        |p: (Seq<char>, Option<Seq<char>>)|
            exists|k: int|
                0 <= k < i && (#[trigger] src[k]).topic == p.0 && src[k].topic.len() > 0
                    && channel_state(src, k + 1) == p.1,
    )
}

/// The topic row `tid` realises the filing `p`: it carries the topic
/// name, and when a channel was in effect its channel row carries that
/// channel's name.
pub open spec fn topic_row_matches(
    c: rusqlite::Connection,
    tid: i64,
    p: (Seq<char>, Option<Seq<char>>),
) -> bool {
    &&& db_topics(c).contains_key(tid)
    &&& db_topics(c)[tid].topic == p.0
    &&& (p.1 matches Some(cn) ==> db_channels(c).contains_key(db_topics(c)[tid].channel_id)
        && db_channels(c)[db_topics(c)[tid].channel_id] == cn)
}

/// The channels table pinned down: the rows of `ch0` survive
/// unchanged, every other row carries one of the first `i` records'
/// channel names, every such name has a row, and names stay unique.
#[verifier::opaque]
pub open spec fn channels_pinned(
    c: rusqlite::Connection,
    ch0: Map<i64, Seq<char>>,
    src: Seq<ItemModel>,
    i: int,
) -> bool {
    &&& map_extends(ch0, db_channels(c))
    &&& forall|cid: i64| #[trigger]
        db_channels(c).contains_key(cid) ==> ch0.contains_key(cid) || channel_names(
            src,
            i,
        ).contains(db_channels(c)[cid])
    &&& forall|n: Seq<char>| #[trigger]
        channel_names(src, i).contains(n) ==> exists|cid: i64|
            #![auto]
            db_channels(c).contains_key(cid) && db_channels(c)[cid] == n
    &&& channels_unique(c)
}

/// The topics table pinned down: the rows of `tp0` survive unchanged,
/// every other row realises one of the first `i` records' filings,
/// every filing has a row, and (name, channel) pairs stay unique.
#[verifier::opaque]
pub open spec fn topics_pinned(
    c: rusqlite::Connection,
    tp0: Map<i64, TopicRow>,
    src: Seq<ItemModel>,
    i: int,
) -> bool {
    &&& map_extends(tp0, db_topics(c))
    &&& forall|tid: i64| #[trigger]
        db_topics(c).contains_key(tid) ==> tp0.contains_key(tid) || exists|
            p: (Seq<char>, Option<Seq<char>>),
        |
            #![auto]
            filing_pairs(src, i).contains(p) && topic_row_matches(c, tid, p)
    &&& forall|p: (Seq<char>, Option<Seq<char>>)| #[trigger]
        filing_pairs(src, i).contains(p) ==> exists|tid: i64|
            #![auto]
            topic_row_matches(c, tid, p)
    &&& topics_unique(c)
}

/// A row id among the deletions of a trace.
pub open spec fn was_removed(removed: Seq<Option<i64>>, id: i64) -> bool {
    exists|k: int| 0 <= k < removed.len() && removed[k] == Some(id)
}

/// What the duplicate scan did, record by record: `removed[k]` names
/// the old row record `k` deleted, or `None` when none of its topic's
/// old rows matched its title and URL.  `tids[k]` is the topic row
/// record `k` was filed under; the deleted row is the first match in
/// id order among the old rows of that topic not yet deleted, and
/// exactly the deleted rows leave the kept set.
#[verifier::opaque]
pub open spec fn dedup_trace(
    m0: Map<i64, ShowModel>,
    sh0: Map<i64, ShowRow>,
    c1: rusqlite::Connection,
    kept: Set<i64>,
    removed: Seq<Option<i64>>,
    tids: Seq<i64>,
    src: Seq<ItemModel>,
    i: int,
    ss0: i64,
) -> bool {
    &&& removed.len() == i
    &&& tids.len() == i
    &&& forall|id: i64| #[trigger]
        m0.contains_key(id) ==> (kept.contains(id) <==> !was_removed(removed, id))
    &&& forall|k: int|
        0 <= k < i ==> (link_state(src, k + 1) matches Some(l) ==> topic_row_matches(
            c1,
            #[trigger] tids[k],
            (l.topic, l.channel),
        ))
    &&& forall|k: int|
        0 <= k < i ==> match #[trigger] removed[k] {
            Some(rid) => {
                &&& m0.contains_key(rid)
                &&& rid <= ss0
                &&& !was_removed(removed.take(k), rid)
                &&& sh0.contains_key(rid)
                &&& sh0[rid].topic_id == tids[k]
                &&& m0[rid].item.title == src[k].title
                &&& m0[rid].item.url == src[k].url
                &&& forall|rid2: i64|
                    #![trigger m0.index(rid2)]
                    m0.contains_key(rid2) && rid2 < rid && rid2 <= ss0 && sh0.contains_key(rid2)
                        && sh0[rid2].topic_id == tids[k] && !was_removed(removed.take(k), rid2)
                        ==> !(m0[rid2].item.title == src[k].title && m0[rid2].item.url
                        == src[k].url)
            },
            None => forall|rid: i64|
                #![trigger m0.index(rid)]
                m0.contains_key(rid) && rid <= ss0 && sh0.contains_key(rid) && sh0[rid].topic_id
                    == tids[k] && !was_removed(removed.take(k), rid) ==> !(m0[rid].item.title
                    == src[k].title && m0[rid].item.url == src[k].url),
        }
}

/// Everything one update run reports: the final index fits the model,
/// one fresh row exists per record, the channels and topics tables
/// hold exactly the base rows plus the records' filings, blobs only
/// grow and new ones carry fresh ids, and, for a deduplicating run,
/// the duplicate scan's trace.
pub open spec fn update_report(
    c1: rusqlite::Connection,
    m0: Map<i64, ShowModel>,
    m: Map<i64, ShowModel>,
    ids: Seq<i64>,
    kept: Set<i64>,
    removed: Seq<Option<i64>>,
    tids: Seq<i64>,
    src: Seq<ItemModel>,
    ch0: Map<i64, Seq<char>>,
    tp0: Map<i64, TopicRow>,
    sh0: Map<i64, ShowRow>,
    bl0: Map<i64, Seq<u8>>,
    bs0: i64,
    ss0: i64,
    deduped: bool,
) -> bool {
    &&& db_matches(c1, m)
    &&& update_outcome(m0, m, ids, kept, src, ss0)
    &&& channels_pinned(c1, ch0, src, src.len() as int)
    &&& topics_pinned(c1, tp0, src, src.len() as int)
    &&& blobs_pinned(c1, bl0, bs0)
    &&& (deduped ==> dedup_trace(m0, sh0, c1, kept, removed, tids, src, src.len() as int, ss0))
    &&& (!deduped ==> kept == m0.dom())
}

/// The witnesses of one update run, bundled: the final model, the new
/// row ids in order, the kept old rows, and the duplicate scan's
/// deletions and topic rows.
pub struct UpdateWitness {
    pub m: Map<i64, ShowModel>,
    pub ids: Seq<i64>,
    pub kept: Set<i64>,
    pub removed: Seq<Option<i64>>,
    pub tids: Seq<i64>,
}

/// The blobs table only grows, and every new blob carries an id past
/// the entry sequence value.
pub open spec fn blobs_pinned(c: rusqlite::Connection, bl0: Map<i64, Seq<u8>>, bs0: i64) -> bool {
    &&& map_extends(bl0, db_blobs(c))
    &&& forall|bid: i64| #[trigger]
        db_blobs(c).contains_key(bid) ==> bl0.contains_key(bid) || bid > bs0
    &&& bs0 <= db_blobs_seq(c)
}

/// Channel claims survive any step that leaves the channels table
/// unchanged.
proof fn lemma_channels_pinned_carry(
    c1: rusqlite::Connection,
    c2: rusqlite::Connection,
    ch0: Map<i64, Seq<char>>,
    src: Seq<ItemModel>,
    i: int,
)
    requires
        channels_pinned(c1, ch0, src, i),
        channels_same(c1, c2),
    ensures
        channels_pinned(c2, ch0, src, i),
{
    reveal(channels_pinned);
    assert forall|n: Seq<char>| #[trigger] channel_names(src, i).contains(n) implies exists|
        cid: i64,
    |
        #![auto]
        db_channels(c2).contains_key(cid) && db_channels(c2)[cid] == n by {
        let cid = choose|cid: i64|
            #![auto]
            db_channels(c1).contains_key(cid) && db_channels(c1)[cid] == n;
        assert(db_channels(c2).contains_key(cid) && db_channels(c2)[cid] == n);
    }
}

/// Topic claims survive any step that leaves the topics table
/// unchanged and only adds channels.
proof fn lemma_topics_pinned_carry(
    c1: rusqlite::Connection,
    c2: rusqlite::Connection,
    tp0: Map<i64, TopicRow>,
    src: Seq<ItemModel>,
    i: int,
)
    requires
        topics_pinned(c1, tp0, src, i),
        topics_same(c1, c2),
        map_extends(db_channels(c1), db_channels(c2)),
    ensures
        topics_pinned(c2, tp0, src, i),
{
    reveal(topics_pinned);
    assert forall|tid: i64| #[trigger] db_topics(c2).contains_key(tid) implies tp0.contains_key(
        tid,
    ) || exists|p: (Seq<char>, Option<Seq<char>>)|
        #![auto]
        filing_pairs(src, i).contains(p) && topic_row_matches(c2, tid, p) by {
        if !tp0.contains_key(tid) {
            let p = choose|p: (Seq<char>, Option<Seq<char>>)|
                #![auto]
                filing_pairs(src, i).contains(p) && topic_row_matches(c1, tid, p);
            assert(topic_row_matches(c2, tid, p));
        }
    }
    assert forall|p: (Seq<char>, Option<Seq<char>>)| #[trigger]
        filing_pairs(src, i).contains(p) implies exists|tid: i64|
        #![auto]
        topic_row_matches(c2, tid, p) by {
        let tid = choose|tid: i64| #![auto] topic_row_matches(c1, tid, p);
        assert(topic_row_matches(c2, tid, p));
    }
}

/// Trace claims survive any step that only adds channel or topic rows.
proof fn lemma_trace_carry(
    m0: Map<i64, ShowModel>,
    sh0: Map<i64, ShowRow>,
    c1: rusqlite::Connection,
    c2: rusqlite::Connection,
    kept: Set<i64>,
    removed: Seq<Option<i64>>,
    tids: Seq<i64>,
    src: Seq<ItemModel>,
    i: int,
    ss0: i64,
)
    requires
        dedup_trace(m0, sh0, c1, kept, removed, tids, src, i, ss0),
        map_extends(db_topics(c1), db_topics(c2)),
        map_extends(db_channels(c1), db_channels(c2)),
    ensures
        dedup_trace(m0, sh0, c2, kept, removed, tids, src, i, ss0),
{
    reveal(dedup_trace);
    assert forall|k: int| 0 <= k < i implies (link_state(src, k + 1) matches Some(l)
        ==> topic_row_matches(c2, #[trigger] tids[k], (l.topic, l.channel))) by {
        if link_state(src, k + 1) is Some {
            let l = link_state(src, k + 1)->Some_0;
            assert(topic_row_matches(c1, tids[k], (l.topic, l.channel)));
        }
    }
}

/// One record's dedup outcome extends the trace.
proof fn lemma_trace_push(
    m0: Map<i64, ShowModel>,
    sh0: Map<i64, ShowRow>,
    c: rusqlite::Connection,
    kept_d: Set<i64>,
    kept: Set<i64>,
    removed: Seq<Option<i64>>,
    tids: Seq<i64>,
    src: Seq<ItemModel>,
    i: int,
    ss0: i64,
    this_removed: Option<i64>,
    this_tid: i64,
)
    requires
        dedup_trace(m0, sh0, c, kept_d, removed, tids, src, i, ss0),
        0 <= i < src.len(),
        link_state(src, i + 1) matches Some(l) ==> topic_row_matches(
            c,
            this_tid,
            (l.topic, l.channel),
        ),
        match this_removed {
            Some(did) => {
                &&& m0.contains_key(did)
                &&& did <= ss0
                &&& !was_removed(removed, did)
                &&& sh0.contains_key(did)
                &&& sh0[did].topic_id == this_tid
                &&& m0[did].item.title == src[i].title
                &&& m0[did].item.url == src[i].url
                &&& kept == kept_d.remove(did)
                &&& forall|rid2: i64|
                    #![trigger m0.index(rid2)]
                    m0.contains_key(rid2) && rid2 < did && rid2 <= ss0 && sh0.contains_key(rid2)
                        && sh0[rid2].topic_id == this_tid && !was_removed(removed, rid2) ==> !(
                    m0[rid2].item.title == src[i].title && m0[rid2].item.url == src[i].url)
            },
            None => kept == kept_d && (forall|rid: i64|
                #![trigger m0.index(rid)]
                m0.contains_key(rid) && rid <= ss0 && sh0.contains_key(rid) && sh0[rid].topic_id
                    == this_tid && !was_removed(removed, rid) ==> !(m0[rid].item.title
                == src[i].title && m0[rid].item.url == src[i].url)),
        },
    ensures
        dedup_trace(m0, sh0, c, kept, removed.push(this_removed), tids.push(this_tid), src, i + 1, ss0),
{
    reveal(dedup_trace);
    let removed2 = removed.push(this_removed);
    let tids2 = tids.push(this_tid);
    assert forall|k: int| 0 <= k <= removed.len() implies #[trigger] removed2.take(k)
        =~= removed.take(k) by {
        assert forall|j: int| 0 <= j < k implies removed2.take(k)[j] == removed.take(k)[j] by {
            assert(removed2[j] == removed[j]);
        }
    }
    assert(removed2.take(i) =~= removed);
    assert forall|id: i64| #[trigger] m0.contains_key(id) implies (kept.contains(id)
        <==> !was_removed(removed2, id)) by {
        assert(removed2[removed.len() as int] == this_removed);
        if was_removed(removed2, id) {
            let kx = choose|kx: int| 0 <= kx < removed2.len() && removed2[kx] == Some(id);
            if kx < removed.len() {
                assert(was_removed(removed, id));
            }
        }
        if was_removed(removed, id) {
            let kx = choose|kx: int| 0 <= kx < removed.len() && removed[kx] == Some(id);
            assert(removed2[kx] == Some(id));
            assert(was_removed(removed2, id));
        }
        match this_removed {
            Some(did) => {
                if id == did {
                    assert(was_removed(removed2, id));
                }
            },
            None => {},
        }
    }
    assert forall|k: int| 0 <= k < i + 1 implies (link_state(src, k + 1) matches Some(l)
        ==> topic_row_matches(c, #[trigger] tids2[k], (l.topic, l.channel))) by {
        if k < i {
            assert(tids2[k] == tids[k]);
            if link_state(src, k + 1) is Some {
                let l = link_state(src, k + 1)->Some_0;
                assert(topic_row_matches(c, tids[k], (l.topic, l.channel)));
            }
        }
    }
}

/// Reads the kept-set characterisation out of a trace.
proof fn lemma_trace_char(
    m0: Map<i64, ShowModel>,
    sh0: Map<i64, ShowRow>,
    c: rusqlite::Connection,
    kept: Set<i64>,
    removed: Seq<Option<i64>>,
    tids: Seq<i64>,
    src: Seq<ItemModel>,
    i: int,
    ss0: i64,
    id: i64,
)
    requires
        dedup_trace(m0, sh0, c, kept, removed, tids, src, i, ss0),
        m0.contains_key(id),
    ensures
        kept.contains(id) <==> !was_removed(removed, id),
{
    reveal(dedup_trace);
}

/// A record that names a channel extends the channel claims by its
/// name.
proof fn lemma_channels_step(
    c1: rusqlite::Connection,
    c2: rusqlite::Connection,
    ch0: Map<i64, Seq<char>>,
    src: Seq<ItemModel>,
    i: int,
    id: i64,
)
    requires
        0 <= i < src.len(),
        channels_pinned(c1, ch0, src, i),
        src[i].channel.len() > 0,
        db_channels(c2).contains_key(id) && db_channels(c2)[id] == src[i].channel,
        map_extends(db_channels(c1), db_channels(c2)),
        db_channels(c2) == db_channels(c1) || (!db_channels(c1).contains_key(id) && (forall|
            j: i64,
        | #[trigger]
            db_channels(c1).contains_key(j) ==> db_channels(c1)[j] != src[i].channel)
            && db_channels(c2) == db_channels(c1).insert(id, src[i].channel)),
    ensures
        channels_pinned(c2, ch0, src, i + 1),
{
    reveal(channels_pinned);
    assert forall|cid: i64| #[trigger] db_channels(c2).contains_key(cid) implies ch0.contains_key(
        cid,
    ) || channel_names(src, i + 1).contains(db_channels(c2)[cid]) by {
        if db_channels(c1).contains_key(cid) {
            if !ch0.contains_key(cid) {
                let k = choose|k: int|
                    0 <= k < i && (#[trigger] src[k]).channel == db_channels(c1)[cid];
                assert(channel_names(src, i + 1).contains(db_channels(c2)[cid]));
            }
        } else {
            assert(cid == id);
            assert((#[trigger] src[i as int]).channel == db_channels(c2)[cid]);
            assert(channel_names(src, i + 1).contains(db_channels(c2)[cid]));
        }
    }
    assert forall|n: Seq<char>| #[trigger] channel_names(src, i + 1).contains(n) implies exists|
        cid: i64,
    |
        #![auto]
        db_channels(c2).contains_key(cid) && db_channels(c2)[cid] == n by {
        let k = choose|k: int| 0 <= k < i + 1 && (#[trigger] src[k]).channel == n;
        if k < i {
            assert(channel_names(src, i).contains(n));
            let cid = choose|cid: i64|
                #![auto]
                db_channels(c1).contains_key(cid) && db_channels(c1)[cid] == n;
            assert(db_channels(c2).contains_key(cid) && db_channels(c2)[cid] == n);
        } else {
            assert(db_channels(c2).contains_key(id) && db_channels(c2)[id] == n);
        }
    }
    assert forall|j1: i64, j2: i64|
        #![trigger db_channels(c2).index(j1), db_channels(c2).index(j2)]
        db_channels(c2).contains_key(j1) && db_channels(c2).contains_key(j2) && db_channels(
            c2,
        )[j1] == db_channels(c2)[j2] implies j1 == j2 by {
        if db_channels(c2) == db_channels(c1) {
        } else {
            if db_channels(c1).contains_key(j1) && db_channels(c1).contains_key(j2) {
            } else if !db_channels(c1).contains_key(j1) && !db_channels(c1).contains_key(j2) {
            } else {
            }
        }
    }
}

/// A record without a channel leaves the channel claims as they were.
proof fn lemma_channels_skip(
    c: rusqlite::Connection,
    ch0: Map<i64, Seq<char>>,
    src: Seq<ItemModel>,
    i: int,
)
    requires
        0 <= i < src.len(),
        channels_pinned(c, ch0, src, i),
        src[i].channel.len() == 0,
    ensures
        channels_pinned(c, ch0, src, i + 1),
{
    reveal(channels_pinned);
    assert(channel_names(src, i + 1) =~= channel_names(src, i)) by {
        assert forall|n: Seq<char>| channel_names(src, i + 1).contains(n) implies channel_names(
            src,
            i,
        ).contains(n) by {
            let k = choose|k: int| 0 <= k < i + 1 && (#[trigger] src[k]).channel == n;
            assert(k < i);
            assert(0 <= k < i && (#[trigger] src[k]).channel == n);
        }
        assert forall|n: Seq<char>| channel_names(src, i).contains(n) implies channel_names(
            src,
            i + 1,
        ).contains(n) by {
            let k = choose|k: int| 0 <= k < i && (#[trigger] src[k]).channel == n;
            assert(0 <= k < i + 1 && (#[trigger] src[k]).channel == n);
        }
    }
}

/// A record that names a topic extends the topic claims by its filing.
proof fn lemma_topics_step(
    c1: rusqlite::Connection,
    c2: rusqlite::Connection,
    tp0: Map<i64, TopicRow>,
    src: Seq<ItemModel>,
    i: int,
    tid: i64,
    cid: i64,
)
    requires
        0 <= i < src.len(),
        topics_pinned(c1, tp0, src, i),
        src[i].topic.len() > 0,
        db_topics(c2).contains_key(tid) && db_topics(c2)[tid].topic == src[i].topic && db_topics(
            c2,
        )[tid].channel_id == cid,
        channel_state(src, i + 1) matches Some(cn) ==> db_channels(c2).contains_key(cid)
            && db_channels(c2)[cid] == cn,
        db_channels(c2) == db_channels(c1),
        map_extends(db_topics(c1), db_topics(c2)),
        db_topics(c2) == db_topics(c1) || (!db_topics(c1).contains_key(tid) && (forall|j: i64|
            #[trigger]
            db_topics(c1).contains_key(j) ==> !(db_topics(c1)[j].topic == src[i].topic
                && db_topics(c1)[j].channel_id == cid)) && db_topics(c2) == db_topics(
            c1,
        ).insert(tid, TopicRow { topic: src[i].topic, channel_id: cid })),
    ensures
        topics_pinned(c2, tp0, src, i + 1),
{
    reveal(topics_pinned);
    let p_new = (src[i as int].topic, channel_state(src, i + 1));
    assert(filing_pairs(src, i + 1).contains(p_new)) by {
        assert(0 <= i < i + 1 && (#[trigger] src[i as int]).topic == p_new.0 && src[i as int].topic.len()
            > 0 && channel_state(src, i + 1) == p_new.1);
    }
    assert(topic_row_matches(c2, tid, p_new));
    assert forall|t2: i64| #[trigger] db_topics(c2).contains_key(t2) implies tp0.contains_key(t2)
        || exists|p: (Seq<char>, Option<Seq<char>>)|
        #![auto]
        filing_pairs(src, i + 1).contains(p) && topic_row_matches(c2, t2, p) by {
        if db_topics(c1).contains_key(t2) {
            if !tp0.contains_key(t2) {
                let p = choose|p: (Seq<char>, Option<Seq<char>>)|
                    #![auto]
                    filing_pairs(src, i).contains(p) && topic_row_matches(c1, t2, p);
                let k = choose|k: int|
                    0 <= k < i && (#[trigger] src[k]).topic == p.0 && src[k].topic.len() > 0
                        && channel_state(src, k + 1) == p.1;
                assert(filing_pairs(src, i + 1).contains(p));
                assert(topic_row_matches(c2, t2, p));
            }
        } else {
            assert(t2 == tid);
        }
    }
    assert forall|p: (Seq<char>, Option<Seq<char>>)| #[trigger]
        filing_pairs(src, i + 1).contains(p) implies exists|t2: i64|
        #![auto]
        topic_row_matches(c2, t2, p) by {
        let k = choose|k: int|
            0 <= k < i + 1 && (#[trigger] src[k]).topic == p.0 && src[k].topic.len() > 0
                && channel_state(src, k + 1) == p.1;
        if k < i {
            assert(filing_pairs(src, i).contains(p));
            let t2 = choose|t2: i64| #![auto] topic_row_matches(c1, t2, p);
            assert(topic_row_matches(c2, t2, p));
        } else {
            assert(p == p_new);
            assert(topic_row_matches(c2, tid, p));
        }
    }
    assert forall|t1: i64, t2: i64|
        #![trigger db_topics(c2).index(t1), db_topics(c2).index(t2)]
        db_topics(c2).contains_key(t1) && db_topics(c2).contains_key(t2) && db_topics(c2)[t1].topic
            == db_topics(c2)[t2].topic && db_topics(c2)[t1].channel_id == db_topics(
            c2,
        )[t2].channel_id implies t1 == t2 by {
        if db_topics(c2) == db_topics(c1) {
        } else {
            if db_topics(c1).contains_key(t1) && db_topics(c1).contains_key(t2) {
            } else if !db_topics(c1).contains_key(t1) && !db_topics(c1).contains_key(t2) {
            } else {
            }
        }
    }
}

/// A record without a topic leaves the topic claims as they were.
proof fn lemma_topics_skip(
    c: rusqlite::Connection,
    tp0: Map<i64, TopicRow>,
    src: Seq<ItemModel>,
    i: int,
)
    requires
        0 <= i < src.len(),
        topics_pinned(c, tp0, src, i),
        src[i].topic.len() == 0,
    ensures
        topics_pinned(c, tp0, src, i + 1),
{
    reveal(topics_pinned);
    assert(filing_pairs(src, i + 1) =~= filing_pairs(src, i)) by {
        assert forall|p: (Seq<char>, Option<Seq<char>>)|
            filing_pairs(src, i + 1).contains(p) implies filing_pairs(src, i).contains(p) by {
            let k = choose|k: int|
                0 <= k < i + 1 && (#[trigger] src[k]).topic == p.0 && src[k].topic.len() > 0
                    && channel_state(src, k + 1) == p.1;
            assert(k < i);
            assert(0 <= k < i && (#[trigger] src[k]).topic == p.0 && src[k].topic.len() > 0
                && channel_state(src, k + 1) == p.1);
        }
        assert forall|p: (Seq<char>, Option<Seq<char>>)|
            filing_pairs(src, i).contains(p) implies filing_pairs(src, i + 1).contains(p) by {
            let k = choose|k: int|
                0 <= k < i && (#[trigger] src[k]).topic == p.0 && src[k].topic.len() > 0
                    && channel_state(src, k + 1) == p.1;
            assert(0 <= k < i + 1 && (#[trigger] src[k]).topic == p.0 && src[k].topic.len() > 0
                && channel_state(src, k + 1) == p.1);
        }
    }
}

/// Where a row's chunk currently lives: already in a stored blob, in
/// the active staging buffer, or in a buffer awaiting compression.
pub open spec fn chunk_tracked(
    c: rusqlite::Connection,
    staged: Seq<u8>,
    jobs: Map<i64, Seq<u8>>,
    active: i64,
    bid: i64,
    off: int,
    chunk: Seq<u8>,
) -> bool {
    ||| blob_has(c, bid, off, chunk)
    ||| (bid == active && chunk_at(staged, off, chunk))
    ||| (jobs.contains_key(bid) && chunk_at(jobs[bid], off, chunk))
}

/// A row mid-update: as `show_matches`, except that its chunks may
/// still be staged or in flight.
pub open spec fn row_ok(
    c: rusqlite::Connection,
    id: i64,
    sm: ShowModel,
    ts: Seq<u8>,
    tj: Map<i64, Seq<u8>>,
    ta: i64,
    us: Seq<u8>,
    uj: Map<i64, Seq<u8>>,
    ua: i64,
) -> bool {
    let r = db_shows(c)[id];
    let it = sm.item;
    &&& db_titles(c).contains_key(id) && db_titles(c)[id] == it.title
    &&& (sm.link matches Some(l) ==> {
        &&& db_topics(c).contains_key(r.topic_id)
        &&& db_topics(c)[r.topic_id].topic == l.topic
        &&& (l.channel matches Some(cn) ==> db_channels(c).contains_key(
            db_topics(c)[r.topic_id].channel_id,
        ) && db_channels(c)[db_topics(c)[r.topic_id].channel_id] == cn)
    })
    &&& r.date == julian_day(it.date.year as int, it.date.month as int, it.date.day as int)
    &&& r.time == seconds_of(it.time)
    &&& r.duration == seconds_of(it.duration)
    &&& r.url_mask == mask_of(it)
    &&& chunk_tracked(c, ts, tj, ta, r.text_blob_id, r.text_offset as int, text_chunk(it))
    &&& chunk_tracked(c, us, uj, ua, r.url_blob_id, r.url_offset as int, url_chunk(it))
    &&& item_wf(it)
    &&& item_nul_free(it)
}

/// The indexer's loop invariant over the store, the model and the two
/// compressors: table domains agree with the model, every allocated
/// blob id is within the sequence, the two active ids and all pending
/// ids are fresh and disjoint, and every row's chunks are tracked.
/// The freshness bookkeeping of the two compressors, meaningful
/// whatever the store holds: the active ids and the pending ids stay
/// within the blob sequence, apart from each other, and within the
/// 32-bit offset range.
pub open spec fn fresh_inv(
    c: rusqlite::Connection,
    ts: Seq<u8>,
    tj: Map<i64, Seq<u8>>,
    ta: i64,
    us: Seq<u8>,
    uj: Map<i64, Seq<u8>>,
    ua: i64,
) -> bool {
    &&& ta <= db_blobs_seq(c) && ua <= db_blobs_seq(c)
    &&& ta != ua
    &&& !tj.contains_key(ta) && !tj.contains_key(ua) && !uj.contains_key(ta)
        && !uj.contains_key(ua)
    &&& forall|b: i64| #[trigger]
        tj.contains_key(b) ==> b <= db_blobs_seq(c) && !uj.contains_key(b) && tj[b].len()
            <= u32::MAX
    &&& forall|b: i64| #[trigger] uj.contains_key(b) ==> b <= db_blobs_seq(c) && uj[b].len() <= u32::MAX
    &&& ts.len() <= u32::MAX
    &&& us.len() <= u32::MAX
}

pub open spec fn upd_inv(
    c: rusqlite::Connection,
    m: Map<i64, ShowModel>,
    ts: Seq<u8>,
    tj: Map<i64, Seq<u8>>,
    ta: i64,
    us: Seq<u8>,
    uj: Map<i64, Seq<u8>>,
    ua: i64,
    start_seq: i64,
) -> bool {
    &&& db_shows(c).dom() == m.dom()
    &&& db_titles(c).dom() == m.dom()
    &&& start_seq <= db_shows_seq(c)
    &&& forall|id: i64| #[trigger] m.contains_key(id) ==> id <= db_shows_seq(c)
    &&& forall|b: i64| #[trigger] db_blobs(c).contains_key(b) ==> b <= db_blobs_seq(c)
    &&& !db_blobs(c).contains_key(ta) && !db_blobs(c).contains_key(ua)
    &&& forall|b: i64| #[trigger] tj.contains_key(b) ==> !db_blobs(c).contains_key(b)
    &&& forall|b: i64| #[trigger] uj.contains_key(b) ==> !db_blobs(c).contains_key(b)
    &&& forall|id: i64| #[trigger] m.contains_key(id) ==> row_ok(c, id, m[id], ts, tj, ta, us, uj, ua)
    &&& forall|id: i64| #[trigger]
        m.contains_key(id) && id <= start_seq ==> show_matches(c, id, m[id])
}

/// How the rows after an update relate to those before and to the
/// ingested records: one fresh row per record in order, filed per the
/// channel and topic in effect, with some of the old rows kept
/// unchanged.
pub open spec fn update_outcome(
    m0: Map<i64, ShowModel>,
    m: Map<i64, ShowModel>,
    ids: Seq<i64>,
    kept: Set<i64>,
    src: Seq<ItemModel>,
    start_seq: i64,
) -> bool {
    &&& ids.no_duplicates()
    &&& ids.len() == src.len()
    &&& forall|k: int| 0 <= k < ids.len() ==> start_seq < #[trigger] ids[k]
    &&& kept.subset_of(m0.dom())
    &&& forall|id: i64| #[trigger] kept.contains(id) ==> m.contains_key(id) && m[id] == m0[id]
    &&& m.dom() =~= kept + ids.to_set()
    &&& forall|k: int|
        0 <= k < ids.len() ==> m.contains_key(#[trigger] ids[k]) && m[ids[k]].item == src[k]
            && m[ids[k]].link == link_state(src, k + 1)
}

/// The ghost bookkeeping of the indexer's loop: how far the input is
/// consumed, which rows are new, which are kept, and what channel and
/// topic are in effect.
pub open spec fn upd_corr(
    src0: Seq<ItemModel>,
    i: int,
    m0: Map<i64, ShowModel>,
    m: Map<i64, ShowModel>,
    ids: Seq<i64>,
    kept: Set<i64>,
    start_seq: i64,
    channel_id: i64,
    topic_id: i64,
    cur_channel: Option<Seq<char>>,
    cur_link: Option<ShowLink>,
    c: rusqlite::Connection,
) -> bool {
    &&& 0 <= i <= src0.len()
    &&& ids.len() == i
    &&& ids.no_duplicates()
    &&& forall|k: int| 0 <= k < ids.len() ==> start_seq < #[trigger] ids[k] <= db_shows_seq(c)
    &&& kept.subset_of(m0.dom())
    &&& forall|id: i64| #[trigger] kept.contains(id) ==> m.contains_key(id) && m[id] == m0[id]
    &&& m.dom() =~= kept + ids.to_set()
    &&& forall|k: int|
        0 <= k < ids.len() ==> m.contains_key(#[trigger] ids[k]) && m[ids[k]].item == src0[k]
            && m[ids[k]].link == link_state(src0, k + 1)
    &&& db_shows_seq(c) == start_seq + i
    &&& cur_channel == channel_state(src0, i)
    &&& cur_link == link_state(src0, i)
    &&& (cur_channel matches Some(cn) ==> db_channels(c).contains_key(channel_id)
        && db_channels(c)[channel_id] == cn)
    &&& (cur_link matches Some(l) ==> {
        &&& db_topics(c).contains_key(topic_id)
        &&& db_topics(c)[topic_id].topic == l.topic
        &&& (l.channel matches Some(cn) ==> db_channels(c).contains_key(
            db_topics(c)[topic_id].channel_id,
        ) && db_channels(c)[db_topics(c)[topic_id].channel_id] == cn)
    })
    &&& forall|id: i64| #[trigger] m0.contains_key(id) ==> id <= start_seq
}

/// Writes a batch of compressed blobs under their tags.  The tags
/// come from the blob id counter, so none exceeds it.
#[verifier::loop_isolation(false)]
fn flush_blobs(c: &mut rusqlite::Connection, done: &Vec<(i64, Vec<u8>)>) -> (r: Result<(), Error>)
    requires
        forall|idx: int|
            0 <= idx < done@.len() ==> (#[trigger] done@[idx]).0 <= db_blobs_seq(*old(c)),
    ensures
        r is Ok ==> {
            &&& map_extends(db_blobs(*old(c)), db_blobs(*final(c)))
            &&& forall|idx: int|
                0 <= idx < done@.len() ==> db_blobs(*final(c)).contains_key(
                    (#[trigger] done@[idx]).0,
                ) && db_blobs(*final(c))[done@[idx].0] == done@[idx].1@
            &&& forall|b: i64| #[trigger]
                db_blobs(*final(c)).contains_key(b) ==> db_blobs(*old(c)).contains_key(b) || (
                exists|idx: int| 0 <= idx < done@.len() && (#[trigger] done@[idx]).0 == b)
            &&& db_blobs_seq(*final(c)) == db_blobs_seq(*old(c))
            &&& channels_same(*old(c), *final(c))
            &&& topics_same(*old(c), *final(c))
            &&& shows_same(*old(c), *final(c))
            &&& titles_same(*old(c), *final(c))
            &&& version_same(*old(c), *final(c))
        },
        r matches Err(e) ==> e == Error::SqlError,
{
    let mut k: usize = 0;
    while k < done.len()
        invariant
            k <= done@.len(),
            map_extends(db_blobs(*old(c)), db_blobs(*c)),
            forall|idx: int|
                0 <= idx < k ==> db_blobs(*c).contains_key((#[trigger] done@[idx]).0)
                    && db_blobs(*c)[done@[idx].0] == done@[idx].1@,
            forall|b: i64| #[trigger]
                db_blobs(*c).contains_key(b) ==> db_blobs(*old(c)).contains_key(b) || (
                exists|idx: int| 0 <= idx < k && (#[trigger] done@[idx]).0 == b),
            db_blobs_seq(*c) == db_blobs_seq(*old(c)),
            channels_same(*old(c), *c),
            topics_same(*old(c), *c),
            shows_same(*old(c), *c),
            titles_same(*old(c), *c),
            version_same(*old(c), *c),
        decreases done@.len() - k,
    {
        match insert_blob(c, done[k].0, done[k].1.as_slice()) {
            Ok(()) => {},
            Err(e) => {
                return Err(e);
            },
        }
        k = k + 1;
    }
    Ok(())
}


/// A chunk stays where it was when the buffer grows at the end.
proof fn chunk_at_extend(s: Seq<u8>, ext: Seq<u8>, off: int, ch: Seq<u8>)
    requires
        chunk_at(s, off, ch),
    ensures
        chunk_at(s + ext, off, ch),
{
    assert((s + ext).subrange(off, off + ch.len()) =~= s.subrange(off, off + ch.len()));
}

/// A stored blob keeps carrying its chunk when blobs are only added.
proof fn blob_has_grow(c1: rusqlite::Connection, c2: rusqlite::Connection, bid: i64, off: int, ch: Seq<u8>)
    requires
        blob_has(c1, bid, off, ch),
        map_extends(db_blobs(c1), db_blobs(c2)),
    ensures
        blob_has(c2, bid, off, ch),
{
    let s = choose|s: Seq<u8>|
        db_blobs(c1)[bid] == compress_of(s) && s.len() <= u32::MAX && #[trigger] chunk_at(s, off, ch);
    assert(db_blobs(c2)[bid] == compress_of(s) && s.len() <= u32::MAX && chunk_at(s, off, ch));
}


/// Every modelled row keeps fitting when the store only grows around
/// it: its own row and title are untouched, filing rows are only
/// added, and the blobs are unchanged.
proof fn lemma_rows_carry(
    c1: rusqlite::Connection,
    c2: rusqlite::Connection,
    m: Map<i64, ShowModel>,
    ts: Seq<u8>,
    tj: Map<i64, Seq<u8>>,
    ta: i64,
    us: Seq<u8>,
    uj: Map<i64, Seq<u8>>,
    ua: i64,
    start_seq: i64,
)
    requires
        forall|id: i64| #[trigger]
            m.contains_key(id) ==> row_ok(c1, id, m[id], ts, tj, ta, us, uj, ua),
        forall|id: i64| #[trigger]
            m.contains_key(id) && id <= start_seq ==> show_matches(c1, id, m[id]),
        forall|id: i64| #[trigger]
            m.contains_key(id) ==> db_shows(c2).contains_key(id) && db_shows(c2)[id] == db_shows(
                c1,
            )[id],
        forall|id: i64| #[trigger]
            m.contains_key(id) ==> db_titles(c2).contains_key(id) && db_titles(c2)[id]
                == db_titles(c1)[id],
        map_extends(db_topics(c1), db_topics(c2)),
        map_extends(db_channels(c1), db_channels(c2)),
        db_blobs(c2) == db_blobs(c1),
    ensures
        forall|id: i64| #[trigger]
            m.contains_key(id) ==> row_ok(c2, id, m[id], ts, tj, ta, us, uj, ua),
        forall|id: i64| #[trigger]
            m.contains_key(id) && id <= start_seq ==> show_matches(c2, id, m[id]),
{
    assert forall|id: i64| #[trigger] m.contains_key(id) implies row_ok(
        c2,
        id,
        m[id],
        ts,
        tj,
        ta,
        us,
        uj,
        ua,
    ) && (id <= start_seq ==> show_matches(c2, id, m[id])) by {
        assert(row_ok(c1, id, m[id], ts, tj, ta, us, uj, ua));
        if id <= start_seq {
            assert(show_matches(c1, id, m[id]));
        }
    }
}

/// Consumes every record of `items` into the index: files each record
/// under the channel and topic in effect, stages its strings, writes
/// its row and title entry, rotates full staging buffers to the
/// background workers, and finally stores every compressed blob.  When
/// `dedup_limit` is given, each record first deletes its first
/// duplicate among the rows up to that id.
#[verifier::rlimit(100)]
fn run_update(
    c: &mut rusqlite::Connection,
    items: &mut ItemSource,
    dedup_limit: Option<i64>,
    Ghost(modeled): Ghost<bool>,
    Ghost(m0): Ghost<Map<i64, ShowModel>>,
) -> (r: Result<(), Error>)
    requires
        modeled ==> db_matches(*old(c), m0),
        modeled ==> (dedup_limit matches Some(x) ==> x == db_shows_seq(*old(c))),
    ensures
        modeled ==> (r is Ok ==> exists|w: UpdateWitness|
            update_report(
                *final(c),
                m0,
                #[trigger] (w.m),
                w.ids,
                w.kept,
                w.removed,
                w.tids,
                models_of(src_items(*old(items))),
                db_channels(*old(c)),
                db_topics(*old(c)),
                db_shows(*old(c)),
                db_blobs(*old(c)),
                db_blobs_seq(*old(c)),
                db_shows_seq(*old(c)),
                dedup_limit is Some,
            )),
        modeled ==> (r is Ok ==> db_shows_seq(*final(c)) == db_shows_seq(*old(c)) + src_items(
            *old(items),
        ).len()),
        modeled ==> exists|n: int|
            #![trigger src_items(*old(items)).skip(n)]
            0 <= n <= src_items(*old(items)).len() && src_items(*final(items)) == src_items(
                *old(items),
            ).skip(n),
        modeled ==> (r == Err::<(), Error>(Error::EmbeddedNul) ==> exists|n: int|
            0 <= n < models_of(src_items(*old(items))).len() && item_has_nul(
                #[trigger] models_of(src_items(*old(items)))[n],
            )),
{
    let ghost c_entry = *c;
    let ghost src_all = src_items(*items);
    let ghost src0 = models_of(src_all);
    let ghost start_seq = db_shows_seq(*c);
    proof {
        assert(src_items(*items) =~= src_all.skip(0));
    }
    let ghost ch0 = db_channels(*c);
    let ghost tp0 = db_topics(*c);
    let ghost sh0 = db_shows(*c);
    let ghost bl0 = db_blobs(*c);
    let ghost bs0 = db_blobs_seq(*c);
    let mut text_compr = BackgroundCompressor::new();
    let mut text_blob_id = match next_blob_id(c) {
        Ok(id) => id,
        Err(e) => {
            return Err(e);
        },
    };
    let mut url_compr = BackgroundCompressor::new();
    let mut url_blob_id = match next_blob_id(c) {
        Ok(id) => id,
        Err(e) => {
            return Err(e);
        },
    };
    let mut channel_id: i64 = 0;
    let mut topic_id: i64 = 0;
    let mut text_fetcher = BlobFetcher::new();
    let mut url_fetcher = BlobFetcher::new();
    let ghost mut m = m0;
    let ghost mut ids = Seq::<i64>::empty();
    let ghost mut kept = m0.dom();
    let ghost mut i: int = 0;
    let ghost mut cur_channel = None::<Seq<char>>;
    let ghost mut cur_link = None::<ShowLink>;
    let ghost mut removed = Seq::<Option<i64>>::empty();
    let ghost mut tids = Seq::<i64>::empty();
    let mut done_items = false;
    proof {
        if modeled {
            assert(m.dom() =~= kept + ids.to_set());
            assert forall|id: i64| #[trigger] m.contains_key(id) implies show_matches(
                *c,
                id,
                m[id],
            ) && row_ok(
                *c,
                id,
                m[id],
                text_compr.staged(),
                text_compr.jobs(),
                text_blob_id,
                url_compr.staged(),
                url_compr.jobs(),
                url_blob_id,
            ) by {
                assert(show_matches(c_entry, id, m[id]));
            }
            reveal(channels_pinned);
            reveal(topics_pinned);
            reveal(dedup_trace);
            assert(channels_pinned(*c, ch0, src0, 0)) by {
                assert forall|cid: i64| #[trigger] ch0.contains_key(cid) implies db_channels(
                    *c,
                ).contains_key(cid) && db_channels(*c)[cid] == ch0[cid] by {}
                assert forall|n: Seq<char>| #[trigger]
                    channel_names(src0, 0).contains(n) implies exists|cid: i64|
                    #![auto]
                    db_channels(*c).contains_key(cid) && db_channels(*c)[cid] == n by {
                    let k = choose|k: int| 0 <= k < 0 && (#[trigger] src0[k]).channel == n;
                }
            }
            assert(topics_pinned(*c, tp0, src0, 0)) by {
                assert forall|tid: i64| #[trigger] tp0.contains_key(tid) implies db_topics(
                    *c,
                ).contains_key(tid) && db_topics(*c)[tid] == tp0[tid] by {}
                assert forall|p: (Seq<char>, Option<Seq<char>>)| #[trigger]
                    filing_pairs(src0, 0).contains(p) implies exists|tid: i64|
                    #![auto]
                    topic_row_matches(*c, tid, p) by {
                    let k = choose|k: int|
                        0 <= k < 0 && (#[trigger] src0[k]).topic == p.0 && src0[k].topic.len() > 0
                            && channel_state(src0, k + 1) == p.1;
                }
            }
            assert(blobs_pinned(*c, bl0, bs0)) by {
                assert forall|bid: i64| #[trigger] bl0.contains_key(bid) implies db_blobs(
                    *c,
                ).contains_key(bid) && db_blobs(*c)[bid] == bl0[bid] by {}
            }
            if dedup_limit is Some {
                assert(dedup_trace(m0, sh0, *c, kept, removed, tids, src0, 0, start_seq)) by {
                    assert forall|id: i64| #[trigger] m0.contains_key(id) implies (kept.contains(
                        id,
                    ) <==> !was_removed(removed, id)) by {
                        if was_removed(removed, id) {
                            let k = choose|k: int|
                                0 <= k < removed.len() && removed[k] == Some(id);
                        }
                    }
                }
            }
        }
    }
    while !done_items
        invariant
            fresh_inv(
                *c,
                text_compr.staged(),
                text_compr.jobs(),
                text_blob_id,
                url_compr.staged(),
                url_compr.jobs(),
                url_blob_id,
            ),
            modeled ==> upd_inv(
                *c,
                m,
                text_compr.staged(),
                text_compr.jobs(),
                text_blob_id,
                url_compr.staged(),
                url_compr.jobs(),
                url_blob_id,
                start_seq,
            ),
            modeled ==> upd_corr(
                src0,
                i,
                m0,
                m,
                ids,
                kept,
                start_seq,
                channel_id,
                topic_id,
                cur_channel,
                cur_link,
                *c,
            ),
            src0 == models_of(src_all),
            src_all == src_items(*old(items)),
            modeled ==> src_items(*items) == src_all.skip(i),
            modeled ==> (dedup_limit matches Some(x) ==> x == start_seq),
            modeled ==> text_fetcher.wf(*c) && url_fetcher.wf(*c),
            modeled ==> (dedup_limit is None ==> kept == m0.dom()),
            modeled ==> channels_pinned(*c, ch0, src0, i),
            modeled ==> topics_pinned(*c, tp0, src0, i),
            modeled ==> blobs_pinned(*c, bl0, bs0),
            modeled ==> (forall|id: i64| #[trigger]
                m.contains_key(id) && id <= start_seq ==> db_shows(*c).contains_key(id)
                    && db_shows(*c)[id] == sh0[id]),
            modeled ==> sh0.dom() == m0.dom(),
            modeled ==> (dedup_limit is Some ==> dedup_trace(
                m0,
                sh0,
                *c,
                kept,
                removed,
                tids,
                src0,
                i,
                start_seq,
            )),
            modeled ==> text_blob_id > bs0 && url_blob_id > bs0,
            modeled ==> (forall|bb: i64| #[trigger] text_compr.jobs().contains_key(bb) ==> bb > bs0),
            modeled ==> (forall|bb: i64| #[trigger] url_compr.jobs().contains_key(bb) ==> bb > bs0),
            done_items ==> (modeled ==> i == src0.len()),
        decreases src_items(*items).len() + (if done_items {
            0int
        } else {
            1int
        }),
    {
        let item = match items.recv() {
            Some(item) => item,
            None => {
                proof {
                    if modeled {
                        assert(src_all.skip(i).len() == 0);
                        assert(i == src0.len());
                    }
                }
                done_items = true;
                continue ;
            },
        };
        proof {
            if modeled {
                assert(src_all.skip(i).len() > 0);
                assert(0 <= i + 1 <= src_all.len());
                assert(src_all.skip(i)[0] == src_all[i]);
                assert(item@ == src0[i]);
                assert(src_items(*items) =~= src_all.skip(i + 1));
            }
        }
        if !item.check_wf() {
            if !item.date.is_valid() {
                return Err(Error::BadDate);
            } else {
                return Err(Error::BadTime);
            }
        }
        if !item.channel.as_str().is_empty() {
            let ghost c_pre = *c;
            channel_id = match get_or_insert_channel(c, item.channel.as_str()) {
                Ok(id) => id,
                Err(e) => {
                    return Err(e);
                },
            };
            proof {
                if modeled {
                    cur_channel = Some(item@.channel);
                    lemma_rows_carry(
                        c_pre,
                        *c,
                        m,
                        text_compr.staged(),
                        text_compr.jobs(),
                        text_blob_id,
                        url_compr.staged(),
                        url_compr.jobs(),
                        url_blob_id,
                        start_seq,
                    );
                    lemma_channels_step(c_pre, *c, ch0, src0, i, channel_id);
                    lemma_topics_pinned_carry(c_pre, *c, tp0, src0, i);
                    if dedup_limit is Some {
                        lemma_trace_carry(
                            m0,
                            sh0,
                            c_pre,
                            *c,
                            kept,
                            removed,
                            tids,
                            src0,
                            i,
                            start_seq,
                        );
                    }
                }
            }
        }
        proof {
            if modeled && item@.channel.len() == 0 {
                lemma_channels_skip(*c, ch0, src0, i);
            }
        }
        if !item.topic.as_str().is_empty() {
            let ghost c_pre2 = *c;
            topic_id = match get_or_insert_topic(c, item.topic.as_str(), channel_id) {
                Ok(id) => id,
                Err(e) => {
                    return Err(e);
                },
            };
            proof {
                if modeled {
                    cur_link = Some(ShowLink { topic: item@.topic, channel: cur_channel });
                    lemma_rows_carry(
                        c_pre2,
                        *c,
                        m,
                        text_compr.staged(),
                        text_compr.jobs(),
                        text_blob_id,
                        url_compr.staged(),
                        url_compr.jobs(),
                        url_blob_id,
                        start_seq,
                    );
                    assert(cur_channel == channel_state(src0, i + 1));
                    lemma_topics_step(c_pre2, *c, tp0, src0, i, topic_id, channel_id);
                    lemma_channels_pinned_carry(c_pre2, *c, ch0, src0, i + 1);
                    if dedup_limit is Some {
                        lemma_trace_carry(
                            m0,
                            sh0,
                            c_pre2,
                            *c,
                            kept,
                            removed,
                            tids,
                            src0,
                            i,
                            start_seq,
                        );
                    }
                }
            }
        } else {
            proof {
                if modeled {
                    assert(cur_link == link_state(src0, i + 1));
                    lemma_topics_skip(*c, tp0, src0, i);
                }
            }
        }
        proof {
            if modeled {
                assert(cur_channel == channel_state(src0, i + 1));
            }
        }
        let ghost mut this_removed: Option<i64> = None::<i64>;
        let ghost m_d = m;
        let ghost kept_d = kept;
        match dedup_limit {
            Some(max_id) => {
                let ghost c_pre3 = *c;
                let deleted = match dedup_show(
                    c,
                    topic_id,
                    item.title.as_str(),
                    item.url.as_str(),
                    max_id,
                    &mut text_fetcher,
                    &mut url_fetcher,
                    Ghost(modeled),
                    Ghost(m),
                ) {
                    Ok(d) => d,
                    Err(e) => {
                        return Err(e);
                    },
                };
                proof {
                    if modeled {
                        this_removed = deleted;
                        lemma_channels_pinned_carry(c_pre3, *c, ch0, src0, i + 1);
                        lemma_topics_pinned_carry(c_pre3, *c, tp0, src0, i + 1);
                        lemma_trace_carry(
                            m0,
                            sh0,
                            c_pre3,
                            *c,
                            kept,
                            removed,
                            tids,
                            src0,
                            i,
                            start_seq,
                        );
                        match deleted {
                            None => {},
                            Some(did) => {
                                assert(!ids.to_set().contains(did)) by {
                                    if ids.to_set().contains(did) {
                                        let k = choose|k: int|
                                            0 <= k < ids.len() && ids[k] == did;
                                        assert(start_seq < ids[k]);
                                    }
                                }
                                assert(kept.contains(did));
                                m = m.remove(did);
                                kept = kept.remove(did);
                                assert(m.dom() =~= kept + ids.to_set());
                                lemma_rows_carry(
                                    c_pre3,
                                    *c,
                                    m,
                                    text_compr.staged(),
                                    text_compr.jobs(),
                                    text_blob_id,
                                    url_compr.staged(),
                                    url_compr.jobs(),
                                    url_blob_id,
                                    start_seq,
                                );
                            },
                        }
                    }
                }
            },
            None => {},
        }
        let ghost c_dd = *c;
        let ghost c_pre4 = *c;
        let ghost ts_pre = text_compr.staged();
        let ghost us_pre = url_compr.staged();
        let show_id = match insert_show_and_title(
            c,
            topic_id,
            text_blob_id,
            &mut text_compr,
            url_blob_id,
            &mut url_compr,
            &item,
        ) {
            Ok(id) => id,
            Err(e) => {
                proof {
                    if modeled && e == Error::EmbeddedNul {
                        assert(item_has_nul(item@));
                        assert(item_has_nul(models_of(src_all)[i]));
                    }
                }
                return Err(e);
            },
        };
        proof {
            if modeled {
                let sm = ShowModel { item: item@, link: cur_link };
                let row = made_row(
                    topic_id,
                    text_blob_id,
                    ts_pre.len() as int,
                    url_blob_id,
                    us_pre.len() as int,
                    item@,
                );
                assert(!m.contains_key(show_id));
                assert(!db_titles(c_pre4).contains_key(show_id));
                m = m.insert(show_id, sm);
                assert(m.dom() =~= kept + ids.push(show_id).to_set()) by {
                    assert forall|x: i64| ids.push(show_id).to_set().contains(x) implies
                        ids.to_set().contains(x) || x == show_id by {
                        let k = choose|k: int|
                            0 <= k < ids.push(show_id).len() && ids.push(show_id)[k] == x;
                        if k < ids.len() {
                            assert(ids[k] == x);
                        }
                    }
                    assert(ids.push(show_id)[ids.len() as int] == show_id);
                    assert forall|x: i64| ids.to_set().contains(x) implies ids.push(
                        show_id,
                    ).to_set().contains(x) by {
                        let k = choose|k: int| 0 <= k < ids.len() && ids[k] == x;
                        assert(ids.push(show_id)[k] == x);
                    }
                }
                assert(ids.push(show_id).no_duplicates()) by {
                    assert forall|k1: int, k2: int|
                        0 <= k1 < k2 < ids.push(show_id).len() implies ids.push(show_id)[k1]
                            != ids.push(show_id)[k2] by {
                        if k2 < ids.len() {
                        } else {
                            assert(ids.push(show_id)[k1] == ids[k1]);
                            assert(start_seq < ids[k1] <= db_shows_seq(c_pre4));
                        }
                    }
                }
                ids = ids.push(show_id);
                i = i + 1;
                assert(m[show_id] == sm);
                assert(row_ok(
                    *c,
                    show_id,
                    sm,
                    text_compr.staged(),
                    text_compr.jobs(),
                    text_blob_id,
                    url_compr.staged(),
                    url_compr.jobs(),
                    url_blob_id,
                )) by {
                    assert(db_shows(*c)[show_id] == row);
                    assert(text_compr.staged() == ts_pre + text_chunk(item@));
                    assert(chunk_at(text_compr.staged(), ts_pre.len() as int, text_chunk(item@)))
                        by {
                        assert(text_compr.staged().subrange(
                            ts_pre.len() as int,
                            ts_pre.len() + text_chunk(item@).len() as int,
                        ) =~= text_chunk(item@));
                    }
                    assert(chunk_at(url_compr.staged(), us_pre.len() as int, url_chunk(item@)))
                        by {
                        assert(url_compr.staged().subrange(
                            us_pre.len() as int,
                            us_pre.len() + url_chunk(item@).len() as int,
                        ) =~= url_chunk(item@));
                    }
                }
                assert forall|id: i64| #[trigger] m.contains_key(id) && id != show_id implies
                    row_ok(
                    *c,
                    id,
                    m[id],
                    text_compr.staged(),
                    text_compr.jobs(),
                    text_blob_id,
                    url_compr.staged(),
                    url_compr.jobs(),
                    url_blob_id,
                ) && (id <= start_seq ==> show_matches(*c, id, m[id])) by {
                    assert(row_ok(
                        c_pre4,
                        id,
                        m[id],
                        ts_pre,
                        text_compr.jobs(),
                        text_blob_id,
                        us_pre,
                        url_compr.jobs(),
                        url_blob_id,
                    ));
                    let r2 = db_shows(c_pre4)[id];
                    if r2.text_blob_id == text_blob_id && chunk_at(
                        ts_pre,
                        r2.text_offset as int,
                        text_chunk(m[id].item),
                    ) {
                        chunk_at_extend(
                            ts_pre,
                            text_chunk(item@),
                            r2.text_offset as int,
                            text_chunk(m[id].item),
                        );
                    }
                    if r2.url_blob_id == url_blob_id && chunk_at(
                        us_pre,
                        r2.url_offset as int,
                        url_chunk(m[id].item),
                    ) {
                        chunk_at_extend(
                            us_pre,
                            url_chunk(item@),
                            r2.url_offset as int,
                            url_chunk(m[id].item),
                        );
                    }
                    if id <= start_seq {
                        assert(show_matches(c_pre4, id, m[id]));
                    }
                }
                assert forall|id: i64| #[trigger] m.contains_key(id) && id <= start_seq implies
                    db_shows(*c).contains_key(id) && db_shows(*c)[id] == sh0[id] by {
                    assert(id != show_id);
                    assert(db_shows(c_pre4).contains_key(id) && db_shows(c_pre4)[id] == sh0[id]);
                }
                lemma_channels_pinned_carry(c_pre4, *c, ch0, src0, i);
                lemma_topics_pinned_carry(c_pre4, *c, tp0, src0, i);
                if dedup_limit is Some {
                    let k_new = i - 1;
                    lemma_trace_carry(
                        m0,
                        sh0,
                        c_pre4,
                        *c,
                        kept_d,
                        removed,
                        tids,
                        src0,
                        k_new,
                        start_seq,
                    );
                    let this_tid: i64 = topic_id;
                    assert(link_state(src0, i) matches Some(l) ==> topic_row_matches(
                        *c,
                        this_tid,
                        (l.topic, l.channel),
                    ));
                    match this_removed {
                        Some(did) => {
                            assert(kept_d.contains(did) && m0.contains_key(did) && m_d[did]
                                == m0[did]) by {
                                assert(did <= start_seq);
                                assert(!ids.subrange(0, ids.len() - 1).to_set().contains(did))
                                    by {
                                    if ids.subrange(0, ids.len() - 1).to_set().contains(did) {
                                        let kx = choose|kx: int|
                                            0 <= kx < ids.len() - 1 && (#[trigger] ids.subrange(
                                                0,
                                                ids.len() - 1,
                                            )[kx]) == did;
                                        assert(start_seq < ids[kx]);
                                    }
                                }
                            }
                            lemma_trace_char(
                                m0,
                                sh0,
                                *c,
                                kept_d,
                                removed,
                                tids,
                                src0,
                                k_new,
                                start_seq,
                                did,
                            );
                            assert(!was_removed(removed, did));
                            assert(sh0.contains_key(did) && sh0[did].topic_id == this_tid);
                            assert(m0[did].item.title == src0[k_new].title && m0[did].item.url
                                == src0[k_new].url);
                            assert forall|rid2: i64|
                                #![trigger m0.index(rid2)]
                                m0.contains_key(rid2) && rid2 < did && rid2 <= start_seq
                                    && sh0.contains_key(rid2) && sh0[rid2].topic_id == this_tid
                                    && !was_removed(removed, rid2) implies !(m0[rid2].item.title
                                == src0[k_new].title && m0[rid2].item.url == src0[k_new].url) by {
                                lemma_trace_char(
                                    m0,
                                    sh0,
                                    *c,
                                    kept_d,
                                    removed,
                                    tids,
                                    src0,
                                    k_new,
                                    start_seq,
                                    rid2,
                                );
                                assert(kept_d.contains(rid2));
                                assert(m_d.contains_key(rid2) && m_d[rid2] == m0[rid2]);
                                assert(db_shows(c_dd)[rid2] == sh0[rid2]);
                            }
                        },
                        None => {
                            assert forall|rid: i64|
                                #![trigger m0.index(rid)]
                                m0.contains_key(rid) && rid <= start_seq && sh0.contains_key(rid)
                                    && sh0[rid].topic_id == this_tid && !was_removed(
                                    removed,
                                    rid,
                                ) implies !(m0[rid].item.title == src0[k_new].title
                                && m0[rid].item.url == src0[k_new].url) by {
                                lemma_trace_char(
                                    m0,
                                    sh0,
                                    *c,
                                    kept_d,
                                    removed,
                                    tids,
                                    src0,
                                    k_new,
                                    start_seq,
                                    rid,
                                );
                                assert(kept_d.contains(rid));
                                assert(m_d.contains_key(rid) && m_d[rid] == m0[rid]);
                                assert(db_shows(c_dd)[rid] == sh0[rid]);
                            }
                        },
                    }
                    lemma_trace_push(
                        m0,
                        sh0,
                        *c,
                        kept_d,
                        kept,
                        removed,
                        tids,
                        src0,
                        k_new,
                        start_seq,
                        this_removed,
                        this_tid,
                    );
                    removed = removed.push(this_removed);
                    tids = tids.push(this_tid);
                }
            }
        }
        if text_compr.len() >= TEXT_BLOB_LEN {
            let ghost c_pre5 = *c;
            let old_id = text_blob_id;
            text_blob_id = match next_blob_id(c) {
                Ok(id) => id,
                Err(e) => {
                    return Err(e);
                },
            };
            let ghost ts_rot = text_compr.staged();
            let ghost tj_rot = text_compr.jobs();
            let done = match text_compr.rotate(old_id) {
                Ok(done) => done,
                Err(e) => {
                    return Err(e);
                },
            };
            let ghost c_pre6 = *c;
            match done {
                Some(pair) => {
                    match insert_blob(c, pair.0, pair.1.as_slice()) {
                        Ok(()) => {},
                        Err(e) => {
                            return Err(e);
                        },
                    }
                },
                None => {},
            }
            proof {
                if modeled {
                    assert forall|id: i64| #[trigger] m.contains_key(id) implies row_ok(
                        *c,
                        id,
                        m[id],
                        text_compr.staged(),
                        text_compr.jobs(),
                        text_blob_id,
                        url_compr.staged(),
                        url_compr.jobs(),
                        url_blob_id,
                    ) && (id <= start_seq ==> show_matches(*c, id, m[id])) by {
                        assert(row_ok(
                            c_pre5,
                            id,
                            m[id],
                            ts_rot,
                            tj_rot,
                            old_id,
                            url_compr.staged(),
                            url_compr.jobs(),
                            url_blob_id,
                        ));
                        let r2 = db_shows(c_pre5)[id];
                        if blob_has(c_pre5, r2.text_blob_id, r2.text_offset as int, text_chunk(m[id].item)) {
                            blob_has_grow(c_pre5, *c, r2.text_blob_id, r2.text_offset as int, text_chunk(m[id].item));
                        } else if r2.text_blob_id == old_id {
                        } else {
                            assert(tj_rot.contains_key(r2.text_blob_id));
                            match done {
                                Some(pair) => {
                                    if pair.0 == r2.text_blob_id {
                                        assert(db_blobs(*c)[r2.text_blob_id] == compress_of(
                                            tj_rot[r2.text_blob_id],
                                        ));
                                        assert(blob_has(
                                            *c,
                                            r2.text_blob_id,
                                            r2.text_offset as int,
                                            text_chunk(m[id].item),
                                        ));
                                    }
                                },
                                None => {},
                            }
                        }
                        if blob_has(c_pre5, r2.url_blob_id, r2.url_offset as int, url_chunk(m[id].item)) {
                            blob_has_grow(c_pre5, *c, r2.url_blob_id, r2.url_offset as int, url_chunk(m[id].item));
                        }
                        if id <= start_seq {
                            assert(show_matches(c_pre5, id, m[id]));
                            let r3 = db_shows(c_pre5)[id];
                            blob_has_grow(c_pre5, *c, r3.text_blob_id, r3.text_offset as int, text_chunk(m[id].item));
                            blob_has_grow(c_pre5, *c, r3.url_blob_id, r3.url_offset as int, url_chunk(m[id].item));
                        }
                    }
                    lemma_channels_pinned_carry(c_pre5, *c, ch0, src0, i);
                    lemma_topics_pinned_carry(c_pre5, *c, tp0, src0, i);
                    if dedup_limit is Some {
                        lemma_trace_carry(
                            m0,
                            sh0,
                            c_pre5,
                            *c,
                            kept,
                            removed,
                            tids,
                            src0,
                            i,
                            start_seq,
                        );
                    }
                    assert(blobs_pinned(*c, bl0, bs0)) by {
                        assert forall|bid: i64| #[trigger]
                            db_blobs(*c).contains_key(bid) implies bl0.contains_key(bid) || bid
                            > bs0 by {
                            if !db_blobs(c_pre5).contains_key(bid) {
                                assert(tj_rot.contains_key(bid));
                            }
                        }
                    }
                }
            }
        }
        if url_compr.len() >= URL_BLOB_LEN {
            let ghost c_pre7 = *c;
            let old_id = url_blob_id;
            url_blob_id = match next_blob_id(c) {
                Ok(id) => id,
                Err(e) => {
                    return Err(e);
                },
            };
            let ghost us_rot = url_compr.staged();
            let ghost uj_rot = url_compr.jobs();
            let done = match url_compr.rotate(old_id) {
                Ok(done) => done,
                Err(e) => {
                    return Err(e);
                },
            };
            match done {
                Some(pair) => {
                    match insert_blob(c, pair.0, pair.1.as_slice()) {
                        Ok(()) => {},
                        Err(e) => {
                            return Err(e);
                        },
                    }
                },
                None => {},
            }
            proof {
                if modeled {
                    assert forall|id: i64| #[trigger] m.contains_key(id) implies row_ok(
                        *c,
                        id,
                        m[id],
                        text_compr.staged(),
                        text_compr.jobs(),
                        text_blob_id,
                        url_compr.staged(),
                        url_compr.jobs(),
                        url_blob_id,
                    ) && (id <= start_seq ==> show_matches(*c, id, m[id])) by {
                        assert(row_ok(
                            c_pre7,
                            id,
                            m[id],
                            text_compr.staged(),
                            text_compr.jobs(),
                            text_blob_id,
                            us_rot,
                            uj_rot,
                            old_id,
                        ));
                        let r2 = db_shows(c_pre7)[id];
                        if blob_has(c_pre7, r2.url_blob_id, r2.url_offset as int, url_chunk(m[id].item)) {
                            blob_has_grow(c_pre7, *c, r2.url_blob_id, r2.url_offset as int, url_chunk(m[id].item));
                        } else if r2.url_blob_id == old_id {
                        } else {
                            assert(uj_rot.contains_key(r2.url_blob_id));
                            match done {
                                Some(pair) => {
                                    if pair.0 == r2.url_blob_id {
                                        assert(db_blobs(*c)[r2.url_blob_id] == compress_of(
                                            uj_rot[r2.url_blob_id],
                                        ));
                                    }
                                },
                                None => {},
                            }
                        }
                        if blob_has(c_pre7, r2.text_blob_id, r2.text_offset as int, text_chunk(m[id].item)) {
                            blob_has_grow(c_pre7, *c, r2.text_blob_id, r2.text_offset as int, text_chunk(m[id].item));
                        }
                        if id <= start_seq {
                            assert(show_matches(c_pre7, id, m[id]));
                            let r3 = db_shows(c_pre7)[id];
                            blob_has_grow(c_pre7, *c, r3.text_blob_id, r3.text_offset as int, text_chunk(m[id].item));
                            blob_has_grow(c_pre7, *c, r3.url_blob_id, r3.url_offset as int, url_chunk(m[id].item));
                        }
                    }
                    lemma_channels_pinned_carry(c_pre7, *c, ch0, src0, i);
                    lemma_topics_pinned_carry(c_pre7, *c, tp0, src0, i);
                    if dedup_limit is Some {
                        lemma_trace_carry(
                            m0,
                            sh0,
                            c_pre7,
                            *c,
                            kept,
                            removed,
                            tids,
                            src0,
                            i,
                            start_seq,
                        );
                    }
                    assert(blobs_pinned(*c, bl0, bs0)) by {
                        assert forall|bid: i64| #[trigger]
                            db_blobs(*c).contains_key(bid) implies bl0.contains_key(bid) || bid
                            > bs0 by {
                            if !db_blobs(c_pre7).contains_key(bid) {
                                assert(uj_rot.contains_key(bid));
                            }
                        }
                    }
                }
            }
        }
    }
    let ghost c_fin0 = *c;
    let ghost ts_fin = text_compr.staged();
    let ghost tj_fin = text_compr.jobs();
    let ghost uj_keep = url_compr.jobs();
    let ghost us_keep = url_compr.staged();
    let text_done = match text_compr.finish(text_blob_id) {
        Ok(v) => v,
        Err(e) => {
            return Err(e);
        },
    };
    proof {
        let tj2x = if ts_fin.len() > 0 {
            tj_fin.insert(text_blob_id, ts_fin)
        } else {
            tj_fin
        };
        assert(drained_ok(tj2x, text_done@));
        assert forall|idx: int| 0 <= idx < text_done@.len() implies (#[trigger] text_done@[idx]).0
            <= db_blobs_seq(*c) by {
            assert(tj2x.contains_key(text_done@[idx].0));
        }
    }
    match flush_blobs(c, &text_done) {
        Ok(()) => {},
        Err(e) => {
            return Err(e);
        },
    }
    let ghost tj2 = if ts_fin.len() > 0 {
        tj_fin.insert(text_blob_id, ts_fin)
    } else {
        tj_fin
    };
    proof {
        if modeled {
            assert(drained_ok(tj2, text_done@));
            assert forall|id: i64| #[trigger] m.contains_key(id) implies row_ok(
                *c,
                id,
                m[id],
                Seq::<u8>::empty(),
                Map::<i64, Seq<u8>>::empty(),
                text_blob_id,
                url_compr.staged(),
                url_compr.jobs(),
                url_blob_id,
            ) && blob_has(
                *c,
                db_shows(*c)[id].text_blob_id,
                db_shows(*c)[id].text_offset as int,
                text_chunk(m[id].item),
            ) by {
                assert(row_ok(
                    c_fin0,
                    id,
                    m[id],
                    ts_fin,
                    tj_fin,
                    text_blob_id,
                    us_keep,
                    uj_keep,
                    url_blob_id,
                ));
                let r2 = db_shows(c_fin0)[id];
                if blob_has(c_fin0, r2.text_blob_id, r2.text_offset as int, text_chunk(m[id].item)) {
                    blob_has_grow(c_fin0, *c, r2.text_blob_id, r2.text_offset as int, text_chunk(m[id].item));
                } else {
                    assert(tj2.contains_key(r2.text_blob_id) && chunk_at(
                        tj2[r2.text_blob_id],
                        r2.text_offset as int,
                        text_chunk(m[id].item),
                    ) && tj2[r2.text_blob_id].len() <= u32::MAX);
                    let kk = choose|kk: int|
                        0 <= kk < text_done@.len() && (#[trigger] text_done@[kk]).0
                            == r2.text_blob_id;
                    assert(text_done@[kk].1@ == compress_of(tj2[r2.text_blob_id]));
                    assert(db_blobs(*c)[r2.text_blob_id] == compress_of(tj2[r2.text_blob_id]));
                    assert(blob_has(*c, r2.text_blob_id, r2.text_offset as int, text_chunk(m[id].item)));
                }
                if blob_has(c_fin0, r2.url_blob_id, r2.url_offset as int, url_chunk(m[id].item)) {
                    blob_has_grow(c_fin0, *c, r2.url_blob_id, r2.url_offset as int, url_chunk(m[id].item));
                } else {
                    assert(!db_blobs(*c).contains_key(r2.url_blob_id) || db_blobs(c_fin0).contains_key(r2.url_blob_id)) by {
                        if db_blobs(*c).contains_key(r2.url_blob_id) && !db_blobs(c_fin0).contains_key(r2.url_blob_id) {
                            let kk = choose|kk: int|
                                0 <= kk < text_done@.len() && (#[trigger] text_done@[kk]).0
                                    == r2.url_blob_id;
                            assert(tj2.contains_key(r2.url_blob_id));
                            assert(false);
                        }
                    }
                }
            }
            lemma_channels_pinned_carry(c_fin0, *c, ch0, src0, i);
            lemma_topics_pinned_carry(c_fin0, *c, tp0, src0, i);
            if dedup_limit is Some {
                lemma_trace_carry(m0, sh0, c_fin0, *c, kept, removed, tids, src0, i, start_seq);
            }
            assert(blobs_pinned(*c, bl0, bs0)) by {
                assert forall|bid: i64| #[trigger]
                    db_blobs(*c).contains_key(bid) implies bl0.contains_key(bid) || bid > bs0 by {
                    if !db_blobs(c_fin0).contains_key(bid) {
                        let kk = choose|kk: int|
                            0 <= kk < text_done@.len() && (#[trigger] text_done@[kk]).0 == bid;
                        assert(tj2.contains_key(bid));
                    }
                }
            }
        }
    }
    let ghost c_fin1 = *c;
    let url_done = match url_compr.finish(url_blob_id) {
        Ok(v) => v,
        Err(e) => {
            return Err(e);
        },
    };
    proof {
        let uj2x = if us_keep.len() > 0 {
            uj_keep.insert(url_blob_id, us_keep)
        } else {
            uj_keep
        };
        assert(drained_ok(uj2x, url_done@));
        assert forall|idx: int| 0 <= idx < url_done@.len() implies (#[trigger] url_done@[idx]).0
            <= db_blobs_seq(*c) by {
            assert(uj2x.contains_key(url_done@[idx].0));
        }
    }
    match flush_blobs(c, &url_done) {
        Ok(()) => {},
        Err(e) => {
            return Err(e);
        },
    }
    let ghost uj2 = if us_keep.len() > 0 {
        uj_keep.insert(url_blob_id, us_keep)
    } else {
        uj_keep
    };
    proof {
        if modeled {
            assert(drained_ok(uj2, url_done@));
            assert forall|id: i64| #[trigger] m.contains_key(id) implies show_matches(
                *c,
                id,
                m[id],
            ) by {
                let r2 = db_shows(c_fin1)[id];
                assert(blob_has(c_fin1, r2.text_blob_id, r2.text_offset as int, text_chunk(m[id].item)));
                blob_has_grow(c_fin1, *c, r2.text_blob_id, r2.text_offset as int, text_chunk(m[id].item));
                assert(row_ok(
                    c_fin1,
                    id,
                    m[id],
                    Seq::<u8>::empty(),
                    Map::<i64, Seq<u8>>::empty(),
                    text_blob_id,
                    us_keep,
                    uj_keep,
                    url_blob_id,
                ));
                if blob_has(c_fin1, r2.url_blob_id, r2.url_offset as int, url_chunk(m[id].item)) {
                    blob_has_grow(c_fin1, *c, r2.url_blob_id, r2.url_offset as int, url_chunk(m[id].item));
                } else {
                    assert(uj2.contains_key(r2.url_blob_id) && chunk_at(
                        uj2[r2.url_blob_id],
                        r2.url_offset as int,
                        url_chunk(m[id].item),
                    ) && uj2[r2.url_blob_id].len() <= u32::MAX);
                    let kk = choose|kk: int|
                        0 <= kk < url_done@.len() && (#[trigger] url_done@[kk]).0
                            == r2.url_blob_id;
                    assert(url_done@[kk].1@ == compress_of(uj2[r2.url_blob_id]));
                    assert(db_blobs(*c)[r2.url_blob_id] == compress_of(uj2[r2.url_blob_id]));
                    assert(blob_has(*c, r2.url_blob_id, r2.url_offset as int, url_chunk(m[id].item)));
                }
            }
            assert forall|b: i64| #[trigger] db_blobs(*c).contains_key(b) implies b
                <= db_blobs_seq(*c) by {
                if db_blobs(c_fin1).contains_key(b) {
                    if db_blobs(c_fin0).contains_key(b) {
                    } else {
                        let kk = choose|kk: int|
                            0 <= kk < text_done@.len() && (#[trigger] text_done@[kk]).0 == b;
                        assert(tj2.contains_key(b));
                    }
                } else {
                    let kk = choose|kk: int|
                        0 <= kk < url_done@.len() && (#[trigger] url_done@[kk]).0 == b;
                    assert(uj2.contains_key(b));
                }
            }
            lemma_channels_pinned_carry(c_fin1, *c, ch0, src0, i);
            lemma_topics_pinned_carry(c_fin1, *c, tp0, src0, i);
            if dedup_limit is Some {
                lemma_trace_carry(m0, sh0, c_fin1, *c, kept, removed, tids, src0, i, start_seq);
            }
            assert(blobs_pinned(*c, bl0, bs0)) by {
                assert forall|bid: i64| #[trigger]
                    db_blobs(*c).contains_key(bid) implies bl0.contains_key(bid) || bid > bs0 by {
                    if !db_blobs(c_fin1).contains_key(bid) {
                        let kk = choose|kk: int|
                            0 <= kk < url_done@.len() && (#[trigger] url_done@[kk]).0 == bid;
                        assert(uj2.contains_key(bid));
                    }
                }
            }
            reveal(channels_pinned);
            reveal(topics_pinned);
            assert(db_matches(*c, m));
            assert(update_outcome(m0, m, ids, kept, src0, start_seq));
            let w = UpdateWitness { m, ids, kept, removed, tids };
            assert(update_report(
                *c,
                m0,
                w.m,
                w.ids,
                w.kept,
                w.removed,
                w.tids,
                src0,
                ch0,
                tp0,
                sh0,
                bl0,
                bs0,
                start_seq,
                dedup_limit is Some,
            ));
        }
    }
    Ok(())
}

/// A freshly rebuilt index holding one row per ingested record.
pub open spec fn full_outcome(
    c0: rusqlite::Connection,
    c1: rusqlite::Connection,
    m: Map<i64, ShowModel>,
    ids: Seq<i64>,
    src: Seq<ItemModel>,
) -> bool {
    update_report(
        c1,
        Map::<i64, ShowModel>::empty(),
        m,
        ids,
        Set::<i64>::empty(),
        Seq::<Option<i64>>::empty(),
        Seq::<i64>::empty(),
        src,
        Map::<i64, Seq<char>>::empty(),
        Map::<i64, TopicRow>::empty(),
        Map::<i64, ShowRow>::empty(),
        Map::<i64, Seq<u8>>::empty(),
        db_blobs_seq(c0),
        db_shows_seq(c0),
        false,
    )
}

/// An index refreshed on top of `m0`, holding one new row per
/// ingested record beside the kept old rows.
pub open spec fn partial_outcome(
    c0: rusqlite::Connection,
    c1: rusqlite::Connection,
    m0: Map<i64, ShowModel>,
    w: UpdateWitness,
    src: Seq<ItemModel>,
) -> bool {
    db_matches(c0, m0) && update_report(
        c1,
        m0,
        w.m,
        w.ids,
        w.kept,
        w.removed,
        w.tids,
        src,
        db_channels(c0),
        db_topics(c0),
        db_shows(c0),
        db_blobs(c0),
        db_blobs_seq(c0),
        db_shows_seq(c0),
        true,
    )
}

/// Rebuilds the whole index from the records of `items`: every table
/// is emptied, then every record is ingested.
pub fn full_update(c: &mut rusqlite::Connection, items: &mut ItemSource) -> (r: Result<(), Error>)
    ensures
        r is Ok ==> exists|m: Map<i64, ShowModel>, ids: Seq<i64>|
            full_outcome(*old(c), *final(c), m, ids, models_of(src_items(*old(items)))),
        exists|n: int|
            #![trigger src_items(*old(items)).skip(n)]
            0 <= n <= src_items(*old(items)).len() && src_items(*final(items)) == src_items(
                *old(items),
            ).skip(n),
        r == Err::<(), Error>(Error::EmbeddedNul) ==> exists|n: int|
            0 <= n < models_of(src_items(*old(items))).len() && item_has_nul(
                #[trigger] models_of(src_items(*old(items)))[n],
            ),
{
    match delete_all_rows(c) {
        Ok(()) => {},
        Err(e) => {
            proof {
                assert(src_items(*items) =~= src_items(*items).skip(0));
            }
            return Err(e);
        },
    }
    let ghost c_mid = *c;
    proof {
        assert(db_matches(c_mid, Map::<i64, ShowModel>::empty())) by {
            assert(db_shows(c_mid).dom() =~= Map::<i64, ShowModel>::empty().dom());
            assert(db_titles(c_mid).dom() =~= Map::<i64, ShowModel>::empty().dom());
        }
    }
    let ghost items_mid = *items;
    let r = run_update(c, items, None, Ghost(true), Ghost(Map::<i64, ShowModel>::empty()));
    proof {
        if r is Ok {
            let w = choose|w: UpdateWitness|
                update_report(
                    *c,
                    Map::<i64, ShowModel>::empty(),
                    #[trigger] (w.m),
                    w.ids,
                    w.kept,
                    w.removed,
                    w.tids,
                    models_of(src_items(items_mid)),
                    db_channels(c_mid),
                    db_topics(c_mid),
                    db_shows(c_mid),
                    db_blobs(c_mid),
                    db_blobs_seq(c_mid),
                    db_shows_seq(c_mid),
                    false,
                );
            assert(w.kept =~= Set::<i64>::empty());
            assert(db_channels(c_mid) =~= Map::<i64, Seq<char>>::empty());
            assert(db_topics(c_mid) =~= Map::<i64, TopicRow>::empty());
            assert(db_shows(c_mid) =~= Map::<i64, ShowRow>::empty());
            assert(db_blobs(c_mid) =~= Map::<i64, Seq<u8>>::empty());
            assert(update_report(
                *c,
                Map::<i64, ShowModel>::empty(),
                w.m,
                w.ids,
                Set::<i64>::empty(),
                Seq::<Option<i64>>::empty(),
                Seq::<i64>::empty(),
                models_of(src_items(items_mid)),
                Map::<i64, Seq<char>>::empty(),
                Map::<i64, TopicRow>::empty(),
                Map::<i64, ShowRow>::empty(),
                Map::<i64, Seq<u8>>::empty(),
                db_blobs_seq(c_mid),
                db_shows_seq(c_mid),
                false,
            ));
            assert(full_outcome(*old(c), *c, w.m, w.ids, models_of(src_items(items_mid))));
        }
    }
    r
}

/// Ingests the records of `items` on top of the existing index,
/// deleting each record's first duplicate among the pre-existing rows
/// before its new row is written.
pub fn partial_update(c: &mut rusqlite::Connection, items: &mut ItemSource) -> (r: Result<
    (),
    Error,
>)
    ensures
        db_consistent(*old(c)) ==> (r is Ok ==> exists|m0: Map<i64, ShowModel>, w: UpdateWitness|
            partial_outcome(*old(c), *final(c), m0, w, models_of(src_items(*old(items))))),
        db_consistent(*old(c)) ==> exists|n: int|
            #![trigger src_items(*old(items)).skip(n)]
            0 <= n <= src_items(*old(items)).len() && src_items(*final(items)) == src_items(
                *old(items),
            ).skip(n),
        db_consistent(*old(c)) ==> (r == Err::<(), Error>(Error::EmbeddedNul) ==> exists|n: int|
            0 <= n < models_of(src_items(*old(items))).len() && item_has_nul(
                #[trigger] models_of(src_items(*old(items)))[n],
            )),
{
    let ghost modeled = db_consistent(*c);
    let ghost src_in = src_items(*items);
    let ghost m0: Map<i64, ShowModel> = if modeled {
        choose|mm: Map<i64, ShowModel>| db_matches(*c, mm)
    } else {
        Map::<i64, ShowModel>::empty()
    };
    let max_show_id = match read_shows_seq(c) {
        Ok(v) => v,
        Err(e) => {
            proof {
                assert(src_items(*items) =~= src_items(*items).skip(0));
            }
            return Err(e);
        },
    };
    let ghost c_in = *c;
    let r = run_update(c, items, Some(max_show_id), Ghost(modeled), Ghost(m0));
    proof {
        if modeled && r is Ok {
            let w = choose|w: UpdateWitness|
                update_report(
                    *c,
                    m0,
                    #[trigger] (w.m),
                    w.ids,
                    w.kept,
                    w.removed,
                    w.tids,
                    models_of(src_in),
                    db_channels(c_in),
                    db_topics(c_in),
                    db_shows(c_in),
                    db_blobs(c_in),
                    db_blobs_seq(c_in),
                    db_shows_seq(c_in),
                    true,
                );
            assert(partial_outcome(c_in, *c, m0, w, models_of(src_in)));
        }
    }
    r
}


/// A list of null-free strings, each null-terminated, concatenated.
pub open spec fn cat_nul(parts: Seq<Seq<u8>>) -> Seq<u8>
    decreases parts.len(),
{
    if parts.len() == 0 {
        Seq::<u8>::empty()
    } else {
        parts[0] + seq![0u8] + cat_nul(parts.drop_first())
    }
}

/// Reading as many strings as were written yields them back.
pub proof fn read_chunk_strings(content: Seq<u8>, off: int, parts: Seq<Seq<u8>>, count: nat)
    requires
        chunk_at(content, off, cat_nul(parts)),
        forall|j: int| 0 <= j < parts.len() ==> !(#[trigger] parts[j]).contains(0u8),
        count == parts.len(),
    ensures
        nul_strings_from(content, off, count) == parts,
    decreases parts.len(),
{
    if parts.len() == 0 {
        assert(nul_strings_from(content, off, 0) =~= parts);
    } else {
        let s1 = parts[0];
        let rest = cat_nul(parts.drop_first());
        let chunk = cat_nul(parts);
        assert(chunk =~= s1 + seq![0u8] + rest);
        assert(content.subrange(off, off + s1.len()) =~= s1) by {
            assert forall|j: int| 0 <= j < s1.len() implies content[off + j] == s1[j] by {
                assert(content.subrange(off, off + chunk.len())[j] == chunk[j]);
            }
        }
        assert(content[off + s1.len()] == 0u8) by {
            assert(content.subrange(off, off + chunk.len())[s1.len() as int] == chunk[s1.len() as int]);
        }
        nul_strings_step(content, off, s1, count);
        let off2 = off + s1.len() + 1;
        assert(chunk_at(content, off2, rest)) by {
            assert(content.subrange(off2, off2 + rest.len()) =~= rest) by {
                assert forall|j: int| 0 <= j < rest.len() implies content[off2 + j] == rest[j] by {
                    assert(content.subrange(off, off + chunk.len())[s1.len() + 1 + j] == chunk[s1
                        .len() + 1 + j]);
                }
            }
        }
        read_chunk_strings(content, off2, parts.drop_first(), (count - 1) as nat);
        assert(nul_strings_from(content, off, count) =~= parts);
    }
}

/// The strings written into the text blob for a record.
pub open spec fn text_parts(m: ItemModel) -> Seq<Seq<u8>> {
    seq![encode_utf8(m.title), encode_utf8(m.description)]
}

/// The strings written into the URL blob for a record.
pub open spec fn url_parts(m: ItemModel) -> Seq<Seq<u8>> {
    seq![encode_utf8(m.url)] + (match m.url_small {
        Some(s) => seq![encode_utf8(s)],
        None => Seq::<Seq<u8>>::empty(),
    }) + (match m.url_large {
        Some(s) => seq![encode_utf8(s)],
        None => Seq::<Seq<u8>>::empty(),
    }) + seq![encode_utf8(m.website)]
}

/// The chunk layouts agree with the string lists.
#[verifier::rlimit(60)]
pub proof fn chunk_parts_agree(m: ItemModel)
    ensures
        text_chunk(m) == cat_nul(text_parts(m)),
        url_chunk(m) == cat_nul(url_parts(m)),
{
    reveal_with_fuel(cat_nul, 6);
    assert(text_chunk(m) =~= cat_nul(text_parts(m))) by {
        assert(text_parts(m).drop_first() =~= seq![encode_utf8(m.description)]);
        assert(text_parts(m).drop_first().drop_first() =~= Seq::<Seq<u8>>::empty());
    }
    let up = url_parts(m);
    match (m.url_small, m.url_large) {
        (Some(s), Some(l)) => {
            assert(up =~= seq![
                encode_utf8(m.url),
                encode_utf8(s),
                encode_utf8(l),
                encode_utf8(m.website),
            ]);
            assert(up.drop_first() =~= seq![encode_utf8(s), encode_utf8(l), encode_utf8(m.website)]);
            assert(up.drop_first().drop_first() =~= seq![encode_utf8(l), encode_utf8(m.website)]);
            assert(up.drop_first().drop_first().drop_first() =~= seq![encode_utf8(m.website)]);
            assert(up.drop_first().drop_first().drop_first().drop_first() =~= Seq::<Seq<u8>>::empty());
            assert(url_chunk(m) =~= cat_nul(up));
        },
        (Some(s), None) => {
            assert(up =~= seq![encode_utf8(m.url), encode_utf8(s), encode_utf8(m.website)]);
            assert(up.drop_first() =~= seq![encode_utf8(s), encode_utf8(m.website)]);
            assert(up.drop_first().drop_first() =~= seq![encode_utf8(m.website)]);
            assert(up.drop_first().drop_first().drop_first() =~= Seq::<Seq<u8>>::empty());
            assert(url_chunk(m) =~= cat_nul(up));
        },
        (None, Some(l)) => {
            assert(up =~= seq![encode_utf8(m.url), encode_utf8(l), encode_utf8(m.website)]);
            assert(up.drop_first() =~= seq![encode_utf8(l), encode_utf8(m.website)]);
            assert(up.drop_first().drop_first() =~= seq![encode_utf8(m.website)]);
            assert(up.drop_first().drop_first().drop_first() =~= Seq::<Seq<u8>>::empty());
            assert(url_chunk(m) =~= cat_nul(up));
        },
        (None, None) => {
            assert(up =~= seq![encode_utf8(m.url), encode_utf8(m.website)]);
            assert(up.drop_first() =~= seq![encode_utf8(m.website)]);
            assert(up.drop_first().drop_first() =~= Seq::<Seq<u8>>::empty());
            assert(url_chunk(m) =~= cat_nul(up));
        },
    }
}

} // verus!
