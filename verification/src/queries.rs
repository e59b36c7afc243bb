//! The read paths: enumerate channels, enumerate topics of a channel,
//! search shows with a sort order, and fetch one show with its strings
//! sliced back out of the blobs.

use vstd::multiset::Multiset;
use vstd::prelude::*;
use vstd::string::StringSliceAdditionalSpecFns;
use vstd::utf8::{encode_utf8, valid_utf8};

use crate::database::{
    cat_nul, chunk_at, chunk_parts_agree, db_consistent, db_matches, item_nul_free,
    nul_strings_from, read_chunk_strings, show_matches, strings_match, text_chunk, text_parts,
    url_chunk, url_parts, BlobFetcher, ShowModel,
};
use crate::compressor::compress_of;
use crate::item::{julian_day, seconds_of};
use crate::store::{
    begin_transaction, commit_transaction, db_blobs, db_channels, db_shows, db_titles,
    db_topics, fts_match, like_match, rollback_transaction, select_channels_all,
    select_distinct_channels, select_show_join, select_shows_all, select_title_matches,
    select_topics_all, select_topics_like, sql_like_prefix, store_same, ShowRow,
};
use crate::Error;

verus! {

/// The column a search is ordered by.
#[derive(Debug, Clone, Copy, PartialEq, Eq, Structural)]
pub enum SortColumn {
    Channel,
    Topic,
    Date,
    Time,
    Duration,
}

/// The direction a search is ordered in.
#[derive(Debug, Clone, Copy, PartialEq, Eq, Structural)]
pub enum SortOrder {
    Ascending,
    Descending,
}

/// One fetched show: the record's fields, with the date and times in
/// their stored integer encodings.
#[derive(Debug, Clone, PartialEq, Eq)]
pub struct ShowData {
    pub channel: String,
    pub topic: String,
    pub title: String,
    pub date: i64,
    pub time: u32,
    pub duration: u32,
    pub description: String,
    pub website: String,
    pub url: String,
    pub url_small: Option<String>,
    pub url_large: Option<String>,
}

/// Relies on `String::from_utf8`: succeeds exactly on valid UTF-8 and
/// yields the text those bytes encode.
#[verifier::external_body]
fn bytes_to_string(v: &[u8]) -> (r: Result<String, Error>)
    ensures
        r matches Ok(s) ==> encode_utf8(s@) == v@,
        r is Ok <== valid_utf8(v@),
{
    match String::from_utf8(v.to_vec()) {
        Ok(s) => Ok(s),
        Err(_) => Err(Error::DecompressError),
    }
}

/// Byte-wise lexicographic order, as the engine's binary collation
/// orders text.
pub open spec fn bytes_le(a: Seq<u8>, b: Seq<u8>) -> bool
    decreases a.len(),
{
    if a.len() == 0 {
        true
    } else if b.len() == 0 {
        false
    } else if a[0] < b[0] {
        true
    } else if a[0] > b[0] {
        false
    } else {
        bytes_le(a.skip(1), b.skip(1))
    }
}

pub proof fn bytes_le_total(a: Seq<u8>, b: Seq<u8>)
    ensures
        bytes_le(a, b) || bytes_le(b, a),
    decreases a.len(),
{
    if a.len() > 0 && b.len() > 0 && a[0] == b[0] {
        bytes_le_total(a.skip(1), b.skip(1));
    }
}

pub proof fn bytes_le_trans(a: Seq<u8>, b: Seq<u8>, c: Seq<u8>)
    requires
        bytes_le(a, b),
        bytes_le(b, c),
    ensures
        bytes_le(a, c),
    decreases a.len(),
{
    if a.len() > 0 && b.len() > 0 && c.len() > 0 && a[0] == b[0] && b[0] == c[0] {
        bytes_le_trans(a.skip(1), b.skip(1), c.skip(1));
    }
}

/// Compares two byte slices in lexicographic order.
fn bytes_le_exec(a: &[u8], b: &[u8]) -> (r: bool)
    ensures
        r == bytes_le(a@, b@),
{
    let mut i: usize = 0;
    proof {
        assert(a@.skip(0) =~= a@);
        assert(b@.skip(0) =~= b@);
    }
    loop
        invariant
            i <= a@.len(),
            i <= b@.len(),
            bytes_le(a@, b@) == bytes_le(a@.skip(i as int), b@.skip(i as int)),
        decreases a@.len() - i,
    {
        if i == a.len() {
            return true;
        }
        if i == b.len() {
            return false;
        }
        let x = a[i];
        let y = b[i];
        proof {
            assert(a@.skip(i as int)[0] == x);
            assert(b@.skip(i as int)[0] == y);
            assert(a@.skip(i as int).skip(1) =~= a@.skip(i + 1));
            assert(b@.skip(i as int).skip(1) =~= b@.skip(i + 1));
        }
        if x < y {
            return true;
        }
        if x > y {
            return false;
        }
        i = i + 1;
    }
}

/// How two shows compare under the requested column and direction.
/// The channel ordering goes by the topic row id with newest-first
/// date and time as tiebreakers; topic ordering goes by the topic
/// name in binary collation; date ordering ties on time.
pub open spec fn key_le(
    col: SortColumn,
    ord: SortOrder,
    ra: ShowRow,
    ta: Seq<char>,
    rb: ShowRow,
    tb: Seq<char>,
) -> bool {
    match col {
        SortColumn::Channel => {
            match ord {
                SortOrder::Ascending => ra.topic_id < rb.topic_id || (ra.topic_id == rb.topic_id
                    && (ra.date > rb.date || (ra.date == rb.date && ra.time >= rb.time))),
                SortOrder::Descending => ra.topic_id > rb.topic_id || (ra.topic_id == rb.topic_id
                    && (ra.date > rb.date || (ra.date == rb.date && ra.time >= rb.time))),
            }
        },
        SortColumn::Topic => {
            match ord {
                SortOrder::Ascending => bytes_le(encode_utf8(ta), encode_utf8(tb)),
                SortOrder::Descending => bytes_le(encode_utf8(tb), encode_utf8(ta)),
            }
        },
        SortColumn::Date => {
            match ord {
                SortOrder::Ascending => ra.date < rb.date || (ra.date == rb.date && ra.time
                    <= rb.time),
                SortOrder::Descending => ra.date > rb.date || (ra.date == rb.date && ra.time
                    >= rb.time),
            }
        },
        SortColumn::Time => {
            match ord {
                SortOrder::Ascending => ra.time <= rb.time,
                SortOrder::Descending => ra.time >= rb.time,
            }
        },
        SortColumn::Duration => {
            match ord {
                SortOrder::Ascending => ra.duration <= rb.duration,
                SortOrder::Descending => ra.duration >= rb.duration,
            }
        },
    }
}

proof fn key_le_total(col: SortColumn, ord: SortOrder, ra: ShowRow, ta: Seq<char>, rb: ShowRow, tb: Seq<char>)
    ensures
        key_le(col, ord, ra, ta, rb, tb) || key_le(col, ord, rb, tb, ra, ta),
{
    if col is Topic {
        bytes_le_total(encode_utf8(ta), encode_utf8(tb));
    }
}

proof fn key_le_trans(
    col: SortColumn,
    ord: SortOrder,
    ra: ShowRow,
    ta: Seq<char>,
    rb: ShowRow,
    tb: Seq<char>,
    rc: ShowRow,
    tc: Seq<char>,
)
    requires
        key_le(col, ord, ra, ta, rb, tb),
        key_le(col, ord, rb, tb, rc, tc),
    ensures
        key_le(col, ord, ra, ta, rc, tc),
{
    if col is Topic {
        match ord {
            SortOrder::Ascending => {
                bytes_le_trans(encode_utf8(ta), encode_utf8(tb), encode_utf8(tc));
            },
            SortOrder::Descending => {
                bytes_le_trans(encode_utf8(tc), encode_utf8(tb), encode_utf8(ta));
            },
        }
    }
}

/// One search candidate: the show id, its row and its topic name.
struct QEntry {
    id: i64,
    row: ShowRow,
    topic: String,
}

spec fn entry_le(col: SortColumn, ord: SortOrder, a: QEntry, b: QEntry) -> bool {
    key_le(col, ord, a.row, a.topic@, b.row, b.topic@)
}

/// Compares two candidates under the requested order.
fn entry_le_exec(col: &SortColumn, ord: &SortOrder, a: &QEntry, b: &QEntry) -> (r: bool)
    ensures
        r == entry_le(*col, *ord, *a, *b),
{
    match col {
        SortColumn::Channel => {
            match ord {
                SortOrder::Ascending => a.row.topic_id < b.row.topic_id || (a.row.topic_id
                    == b.row.topic_id && (a.row.date > b.row.date || (a.row.date == b.row.date
                    && a.row.time >= b.row.time))),
                SortOrder::Descending => a.row.topic_id > b.row.topic_id || (a.row.topic_id
                    == b.row.topic_id && (a.row.date > b.row.date || (a.row.date == b.row.date
                    && a.row.time >= b.row.time))),
            }
        },
        SortColumn::Topic => {
            match ord {
                SortOrder::Ascending => bytes_le_exec(a.topic.as_str().as_bytes(), b.topic.as_str().as_bytes()),
                SortOrder::Descending => bytes_le_exec(b.topic.as_str().as_bytes(), a.topic.as_str().as_bytes()),
            }
        },
        SortColumn::Date => {
            match ord {
                SortOrder::Ascending => a.row.date < b.row.date || (a.row.date == b.row.date
                    && a.row.time <= b.row.time),
                SortOrder::Descending => a.row.date > b.row.date || (a.row.date == b.row.date
                    && a.row.time >= b.row.time),
            }
        },
        SortColumn::Time => {
            match ord {
                SortOrder::Ascending => a.row.time <= b.row.time,
                SortOrder::Descending => a.row.time >= b.row.time,
            }
        },
        SortColumn::Duration => {
            match ord {
                SortOrder::Ascending => a.row.duration <= b.row.duration,
                SortOrder::Descending => a.row.duration >= b.row.duration,
            }
        },
    }
}

/// A sequence's multiset grows by the inserted element.
proof fn seq_insert_multiset<A>(s: Seq<A>, pos: int, x: A)
    requires
        0 <= pos <= s.len(),
    ensures
        s.insert(pos, x).to_multiset() =~= s.to_multiset().insert(x),
{
    let t = s.insert(pos, x);
    assert(t[pos] == x);
    vstd::seq_lib::to_multiset_remove::<A>(t, pos);
    t.to_multiset_ensures();
    assert(t.remove(pos) =~= s);
    assert(t.contains(x));
    assert(t.to_multiset().count(x) > 0);
    assert(t.to_multiset() =~= s.to_multiset().insert(x)) by {
        assert(s.to_multiset() == t.to_multiset().remove(x));
    }
}

/// Sorts the candidates under the requested order, keeping exactly the
/// same entries.
fn sort_entries(list: Vec<QEntry>, col: &SortColumn, ord: &SortOrder) -> (r: Vec<QEntry>)
    ensures
        r@.to_multiset() == list@.to_multiset(),
        forall|k1: int, k2: int|
            0 <= k1 < k2 < r@.len() ==> entry_le(*col, *ord, r@[k1], r@[k2]),
{
    broadcast use vstd::seq_lib::group_to_multiset_ensures;

    let mut rest = list;
    let mut out: Vec<QEntry> = Vec::new();
    let ghost list0 = rest@;
    while rest.len() > 0
        invariant
            out@.to_multiset().add(rest@.to_multiset()) =~= list0.to_multiset(),
            forall|k1: int, k2: int|
                0 <= k1 < k2 < out@.len() ==> entry_le(*col, *ord, out@[k1], out@[k2]),
        decreases rest@.len(),
    {
        let ghost rest_pre = rest@;
        let x = rest.remove(0);
        proof {
            assert(rest_pre[0] == x);
            vstd::seq_lib::to_multiset_remove::<QEntry>(rest_pre, 0);
            rest_pre.to_multiset_ensures();
            assert(rest@ =~= rest_pre.remove(0));
            assert(rest_pre.contains(x));
            assert(rest_pre.to_multiset().count(x) > 0);
            assert(rest@.to_multiset() == rest_pre.to_multiset().remove(x));
        }
        let mut pos: usize = 0;
        while pos < out.len() && entry_le_exec(col, ord, &out[pos], &x)
            invariant
                pos <= out@.len(),
                forall|k: int| 0 <= k < pos ==> entry_le(*col, *ord, out@[k], x),
        decreases out@.len() - pos,
        {
            pos = pos + 1;
        }
        proof {
            if pos < out@.len() {
                key_le_total(*col, *ord, out@[pos as int].row, out@[pos as int].topic@, x.row, x.topic@);
                assert(entry_le(*col, *ord, x, out@[pos as int]));
                assert forall|k: int| pos <= k < out@.len() implies entry_le(
                    *col,
                    *ord,
                    x,
                    out@[k],
                ) by {
                    if k > pos {
                        assert(entry_le(*col, *ord, out@[pos as int], out@[k]));
                        key_le_trans(
                            *col,
                            *ord,
                            x.row,
                            x.topic@,
                            out@[pos as int].row,
                            out@[pos as int].topic@,
                            out@[k].row,
                            out@[k].topic@,
                        );
                    }
                }
            }
        }
        let ghost out_pre = out@;
        out.insert(pos, x);
        proof {
            seq_insert_multiset(out_pre, pos as int, x);
            assert(out@.to_multiset().add(rest@.to_multiset()) =~= list0.to_multiset()) by {
                assert(out@.to_multiset() =~= out_pre.to_multiset().insert(x));
                assert(out_pre.to_multiset().add(rest_pre.to_multiset()) =~= list0.to_multiset());
            }
            assert forall|k1: int, k2: int|
                0 <= k1 < k2 < out@.len() implies entry_le(*col, *ord, out@[k1], out@[k2]) by {
                if k2 < pos {
                } else if k1 < pos && k2 == pos {
                } else if k1 < pos && k2 > pos {
                    assert(out@[k2] == out_pre[k2 - 1]);
                } else if k1 == pos {
                    assert(out@[k2] == out_pre[k2 - 1]);
                } else {
                    assert(out@[k1] == out_pre[k1 - 1]);
                    assert(out@[k2] == out_pre[k2 - 1]);
                }
            }
        }
    }
    proof {
        assert(rest@.to_multiset() =~= Multiset::<QEntry>::empty());
        assert(out@.to_multiset() =~= list0.to_multiset());
    }
    out
}



/// A model that fits one connection state fits any state with the same
/// contents.
proof fn db_matches_transfer(
    c1: rusqlite::Connection,
    c2: rusqlite::Connection,
    m: Map<i64, ShowModel>,
)
    requires
        store_same(c1, c2),
        db_matches(c1, m),
    ensures
        db_matches(c2, m),
{
    assert forall|id: i64| #[trigger] m.contains_key(id) implies show_matches(c2, id, m[id]) by {
        assert(show_matches(c1, id, m[id]));
    }
}

/// A show id a search with the given filters returns: the filing
/// chain exists and every non-empty filter accepts the row.
pub open spec fn query_accepts(
    c: rusqlite::Connection,
    chf: Seq<char>,
    tpf: Seq<char>,
    tif: Seq<char>,
    id: i64,
) -> bool {
    &&& db_shows(c).contains_key(id)
    &&& db_topics(c).contains_key(db_shows(c)[id].topic_id)
    &&& db_channels(c).contains_key(db_topics(c)[db_shows(c)[id].topic_id].channel_id)
    &&& (chf.len() == 0 || like_match(
        chf,
        db_channels(c)[db_topics(c)[db_shows(c)[id].topic_id].channel_id],
    ))
    &&& (tpf.len() == 0 || like_match(tpf, db_topics(c)[db_shows(c)[id].topic_id].topic))
    &&& (tif.len() == 0 || (db_titles(c).contains_key(id) && fts_match(tif, db_titles(c)[id])))
}

/// How two returned shows are ordered, over the store.
pub open spec fn query_le(
    c: rusqlite::Connection,
    col: SortColumn,
    ord: SortOrder,
    a: i64,
    b: i64,
) -> bool {
    key_le(
        col,
        ord,
        db_shows(c)[a],
        db_topics(c)[db_shows(c)[a].topic_id].topic,
        db_shows(c)[b],
        db_topics(c)[db_shows(c)[b].topic_id].topic,
    )
}

/// Finds the row of `topics` with the given id.
fn find_topic(topics: &Vec<(i64, String, i64)>, tid: i64) -> (r: Option<usize>)
    ensures
        r matches Some(k) ==> k < topics@.len() && (#[trigger] topics@[k as int]).0 == tid,
        r is None ==> forall|k: int| 0 <= k < topics@.len() ==> (#[trigger] topics@[k]).0 != tid,
{
    let mut k: usize = 0;
    while k < topics.len()
        invariant
            k <= topics@.len(),
            forall|j: int| 0 <= j < k ==> (#[trigger] topics@[j]).0 != tid,
        decreases topics@.len() - k,
    {
        if topics[k].0 == tid {
            return Some(k);
        }
        k = k + 1;
    }
    None
}

/// Finds the row of `channels` with the given id.
fn find_channel(channels: &Vec<(i64, String)>, cid: i64) -> (r: Option<usize>)
    ensures
        r matches Some(k) ==> k < channels@.len() && (#[trigger] channels@[k as int]).0 == cid,
        r is None ==> forall|k: int| 0 <= k < channels@.len() ==> (#[trigger] channels@[k]).0 != cid,
{
    let mut k: usize = 0;
    while k < channels.len()
        invariant
            k <= channels@.len(),
            forall|j: int| 0 <= j < k ==> (#[trigger] channels@[j]).0 != cid,
        decreases channels@.len() - k,
    {
        if channels[k].0 == cid {
            return Some(k);
        }
        k = k + 1;
    }
    None
}

/// Whether `ids` holds `id`.
fn contains_id(ids: &Vec<i64>, id: i64) -> (r: bool)
    ensures
        r <==> ids@.contains(id),
{
    let mut k: usize = 0;
    while k < ids.len()
        invariant
            k <= ids@.len(),
            forall|j: int| 0 <= j < k ==> ids@[j] != id,
        decreases ids@.len() - k,
    {
        if ids[k] == id {
            assert(ids@.contains(id));
            return true;
        }
        k = k + 1;
    }
    false
}

/// The read-serving handle: one connection and one decompression cache
/// per blob kind.
pub struct Internals {
    conn: rusqlite::Connection,
    text_fetcher: BlobFetcher,
    url_fetcher: BlobFetcher,
}

/// The fields a fetched show presents, against the model of its row.
pub open spec fn show_presented(d: ShowData, sm: ShowModel) -> bool {
    &&& sm.link matches Some(l) && l.channel matches Some(cn) && d.channel@ == cn && d.topic@
        == l.topic
    &&& d.title@ == sm.item.title
    &&& d.description@ == sm.item.description
    &&& d.website@ == sm.item.website
    &&& d.url@ == sm.item.url
    &&& (match d.url_small {
        Some(s) => sm.item.url_small == Some(s@),
        None => sm.item.url_small is None,
    })
    &&& (match d.url_large {
        Some(s) => sm.item.url_large == Some(s@),
        None => sm.item.url_large is None,
    })
    &&& d.date == julian_day(
        sm.item.date.year as int,
        sm.item.date.month as int,
        sm.item.date.day as int,
    )
    &&& d.time == seconds_of(sm.item.time)
    &&& d.duration == seconds_of(sm.item.duration)
}

impl Internals {
    /// The connection this handle reads from.
    pub closed spec fn store(&self) -> rusqlite::Connection {
        self.conn
    }

    /// The decompression caches agree with the stored blobs.
    pub closed spec fn inv(&self) -> bool {
        self.text_fetcher.wf(self.conn) && self.url_fetcher.wf(self.conn)
    }

    pub fn new(conn: rusqlite::Connection) -> (r: Internals)
        ensures
            r.store() == conn,
            r.inv(),
    {
        Internals { conn, text_fetcher: BlobFetcher::new(), url_fetcher: BlobFetcher::new() }
    }

    /// Every stored channel name, each exactly once.
    pub fn channels(&mut self) -> (r: Result<Vec<String>, Error>)
        ensures
            *final(self) == *old(self),
            r matches Ok(v) ==> crate::store::channels_listing(old(self).store(), v@),
    {
        select_distinct_channels(&self.conn)
    }

    /// Every topic name filed under a channel whose name the prefix
    /// pattern accepts, each exactly once.
    pub fn topics(&mut self, channel: &str) -> (r: Result<Vec<String>, Error>)
        ensures
            *final(self) == *old(self),
            r matches Ok(v) ==> crate::store::topics_listing(old(self).store(), channel@, v@),
    {
        select_topics_like(&self.conn, channel)
    }
}



impl Internals {
    /// The search proper, run against one snapshot of the store.
    #[verifier::rlimit(100)]
    fn query_inner(
        &mut self,
        channel: &str,
        topic: &str,
        title: &str,
        sort_column: SortColumn,
        sort_order: SortOrder,
    ) -> (r: Result<Vec<i64>, Error>)
        ensures
            *final(self) == *old(self),
            r matches Ok(v) ==> {
                let c = old(self).store();
                &&& forall|k: int|
                    0 <= k < v@.len() ==> query_accepts(
                        c,
                        channel@,
                        topic@,
                        title@,
                        #[trigger] v@[k],
                    )
                &&& forall|id: i64| #[trigger]
                    query_accepts(c, channel@, topic@, title@, id) ==> v@.contains(id)
                &&& v@.no_duplicates()
                &&& forall|k1: int, k2: int|
                    0 <= k1 < k2 < v@.len() ==> query_le(c, sort_column, sort_order, v@[k1], v@[k2])
            },
    {
        let ghost c = *old(self);
        let shows = match select_shows_all(&self.conn) {
            Ok(v) => v,
            Err(e) => {
                return Err(e);
            },
        };
        let topics_v = match select_topics_all(&self.conn) {
            Ok(v) => v,
            Err(e) => {
                return Err(e);
            },
        };
        let channels_v = match select_channels_all(&self.conn) {
            Ok(v) => v,
            Err(e) => {
                return Err(e);
            },
        };
        let title_ids: Option<Vec<i64>> = if !title.is_empty() {
            match select_title_matches(&self.conn, title) {
                Ok(v) => Some(v),
                Err(e) => {
                    return Err(e);
                },
            }
        } else {
            None
        };
        let mut entries: Vec<QEntry> = Vec::new();
        let mut k: usize = 0;
        while k < shows.len()
            invariant
                *self == c,
                k <= shows@.len(),
                forall|j: int|
                    0 <= j < shows@.len() ==> {
                        let p = #[trigger] shows@[j];
                        db_shows(c.store()).contains_key(p.0) && db_shows(c.store())[p.0] == p.1
                    },
                forall|id: i64| #[trigger]
                    db_shows(c.store()).contains_key(id) ==> exists|j: int|
                        0 <= j < shows@.len() && (#[trigger] shows@[j]).0 == id,
                forall|j1: int, j2: int|
                    0 <= j1 < j2 < shows@.len() ==> (#[trigger] shows@[j1]).0 < (
                    #[trigger] shows@[j2]).0,
                forall|j: int|
                    0 <= j < topics_v@.len() ==> {
                        let p = #[trigger] topics_v@[j];
                        &&& db_topics(c.store()).contains_key(p.0)
                        &&& db_topics(c.store())[p.0].topic == p.1@
                        &&& db_topics(c.store())[p.0].channel_id == p.2
                    },
                forall|tid: i64| #[trigger]
                    db_topics(c.store()).contains_key(tid) ==> exists|j: int|
                        0 <= j < topics_v@.len() && (#[trigger] topics_v@[j]).0 == tid,
                forall|j: int|
                    0 <= j < channels_v@.len() ==> {
                        let p = #[trigger] channels_v@[j];
                        db_channels(c.store()).contains_key(p.0) && db_channels(c.store())[p.0]
                            == p.1@
                    },
                forall|cid: i64| #[trigger]
                    db_channels(c.store()).contains_key(cid) ==> exists|j: int|
                        0 <= j < channels_v@.len() && (#[trigger] channels_v@[j]).0 == cid,
                title_ids is Some <==> title@.len() > 0,
                title_ids matches Some(tv) ==> crate::store::titles_search_listing(
                    c.store(),
                    title@,
                    tv@,
                ),
                forall|x: int|
                    0 <= x < entries@.len() ==> {
                        let e = #[trigger] entries@[x];
                        &&& db_shows(c.store()).contains_key(e.id)
                        &&& e.row == db_shows(c.store())[e.id]
                        &&& db_topics(c.store()).contains_key(e.row.topic_id)
                        &&& e.topic@ == db_topics(c.store())[e.row.topic_id].topic
                        &&& query_accepts(c.store(), channel@, topic@, title@, e.id)
                    },
                forall|x1: int, x2: int|
                    0 <= x1 < x2 < entries@.len() ==> (#[trigger] entries@[x1]).id < (
                    #[trigger] entries@[x2]).id,
                k > 0 ==> forall|x: int|
                    0 <= x < entries@.len() ==> (#[trigger] entries@[x]).id <= shows@[k - 1].0,
                k == 0 ==> entries@.len() == 0,
                forall|j: int|
                    0 <= j < k && query_accepts(
                        c.store(),
                        channel@,
                        topic@,
                        title@,
                        (#[trigger] shows@[j]).0,
                    ) ==> exists|x: int|
                        0 <= x < entries@.len() && (#[trigger] entries@[x]).id == shows@[j].0,
            decreases shows@.len() - k,
        {
            let id = shows[k].0;
            let row = shows[k].1;
            let mut keep = true;
            let mut topic_name = String::new();
            match find_topic(&topics_v, row.topic_id) {
                Some(ti) => {
                    let trow_channel = topics_v[ti].2;
                    match find_channel(&channels_v, trow_channel) {
                        Some(ci) => {
                            if !channel.is_empty() {
                                match sql_like_prefix(
                                    &self.conn,
                                    channel,
                                    channels_v[ci].1.as_str(),
                                ) {
                                    Ok(b) => {
                                        if !b {
                                            keep = false;
                                        }
                                    },
                                    Err(e) => {
                                        return Err(e);
                                    },
                                }
                            }
                            if keep && !topic.is_empty() {
                                match sql_like_prefix(&self.conn, topic, topics_v[ti].1.as_str()) {
                                    Ok(b) => {
                                        if !b {
                                            keep = false;
                                        }
                                    },
                                    Err(e) => {
                                        return Err(e);
                                    },
                                }
                            }
                            match &title_ids {
                                Some(tv) => {
                                    if keep && !contains_id(tv, id) {
                                        keep = false;
                                        proof {
                                            if db_titles(c.store()).contains_key(id) && fts_match(
                                                title@,
                                                db_titles(c.store())[id],
                                            ) {
                                                assert(tv@.contains(id));
                                                assert(false);
                                            }
                                        }
                                    }
                                },
                                None => {},
                            }
                            if keep {
                                topic_name = topics_v[ti].1.clone();
                            }
                        },
                        None => {
                            keep = false;
                            proof {
                                assert(!db_channels(c.store()).contains_key(trow_channel));
                            }
                        },
                    }
                },
                None => {
                    keep = false;
                    proof {
                        assert(!db_topics(c.store()).contains_key(row.topic_id));
                    }
                },
            }
            if keep {
                proof {
                    if k > 0 {
                        assert(shows@[k - 1].0 < shows@[k as int].0);
                    }
                }
                let ghost entries_pre = entries@;
                entries.push(QEntry { id, row, topic: topic_name });
                proof {
                    assert(entries@[entries@.len() - 1].id == id);
                    assert forall|j: int|
                        0 <= j < k && query_accepts(
                            c.store(),
                            channel@,
                            topic@,
                            title@,
                            (#[trigger] shows@[j]).0,
                        ) implies exists|x: int|
                        0 <= x < entries@.len() && (#[trigger] entries@[x]).id == shows@[j].0 by {
                        let x = choose|x: int|
                            0 <= x < entries_pre.len() && (#[trigger] entries_pre[x]).id
                                == shows@[j].0;
                        assert(entries@[x].id == shows@[j].0);
                    }
                }
            } else {
                proof {
                    assert(!query_accepts(c.store(), channel@, topic@, title@, id));
                }
            }
            k = k + 1;
        }
        let ghost entries0 = entries@;
        let sorted = sort_entries(entries, &sort_column, &sort_order);
        let mut out: Vec<i64> = Vec::new();
        let mut x: usize = 0;
        while x < sorted.len()
            invariant
                x <= sorted@.len(),
                out@.len() == x,
                forall|y: int| 0 <= y < x ==> (#[trigger] out@[y]) == sorted@[y as int].id,
            decreases sorted@.len() - x,
        {
            out.push(sorted[x].id);
            x = x + 1;
        }
        proof {
            sorted@.to_multiset_ensures();
            entries0.to_multiset_ensures();
            assert(entries0.no_duplicates()) by {
                assert forall|x1: int, x2: int|
                    0 <= x1 < x2 < entries0.len() implies entries0[x1] != entries0[x2] by {
                    assert(entries0[x1].id < entries0[x2].id);
                }
            }
            entries0.lemma_multiset_has_no_duplicates();
            assert(sorted@.no_duplicates()) by {
                assert(forall|e: QEntry| #[trigger]
                    sorted@.to_multiset().contains(e) ==> sorted@.to_multiset().count(e) == 1);
                sorted@.lemma_multiset_has_no_duplicates_conv();
            }
            assert forall|kk: int| 0 <= kk < out@.len() implies query_accepts(
                c.store(),
                channel@,
                topic@,
                title@,
                #[trigger] out@[kk],
            ) && sorted@[kk].row == db_shows(c.store())[out@[kk]] && sorted@[kk].topic@
                == db_topics(c.store())[db_shows(c.store())[out@[kk]].topic_id].topic by {
                assert(sorted@.to_multiset().count(sorted@[kk]) > 0);
                assert(entries0.to_multiset().count(sorted@[kk]) > 0);
                assert(entries0.contains(sorted@[kk]));
                let j = choose|j: int| 0 <= j < entries0.len() && entries0[j] == sorted@[kk];
                assert(query_accepts(c.store(), channel@, topic@, title@, entries0[j].id));
            }
            assert forall|id: i64| #[trigger]
                query_accepts(c.store(), channel@, topic@, title@, id) implies out@.contains(
                id,
            ) by {
                let j = choose|j: int|
                    0 <= j < shows@.len() && (#[trigger] shows@[j]).0 == id;
                let x0 = choose|x0: int|
                    0 <= x0 < entries0.len() && (#[trigger] entries0[x0]).id == id;
                assert(entries0.contains(entries0[x0]));
                assert(entries0.to_multiset().count(entries0[x0]) > 0);
                assert(sorted@.to_multiset().count(entries0[x0]) > 0);
                assert(sorted@.contains(entries0[x0]));
                let kk = choose|kk: int|
                    0 <= kk < sorted@.len() && sorted@[kk] == entries0[x0];
                assert(out@[kk] == id);
                assert(out@.contains(id));
            }
            assert(out@.no_duplicates()) by {
                assert forall|k1: int, k2: int|
                    0 <= k1 < k2 < out@.len() implies out@[k1] != out@[k2] by {
                    if out@[k1] == out@[k2] {
                        assert(sorted@.contains(sorted@[k1]));
                        assert(sorted@.to_multiset().count(sorted@[k1]) > 0);
                        assert(entries0.to_multiset().count(sorted@[k1]) > 0);
                        assert(sorted@.contains(sorted@[k2]));
                        assert(sorted@.to_multiset().count(sorted@[k2]) > 0);
                        assert(entries0.to_multiset().count(sorted@[k2]) > 0);
                        assert(entries0.contains(sorted@[k1]));
                        assert(entries0.contains(sorted@[k2]));
                        let j1 = choose|j1: int|
                            0 <= j1 < entries0.len() && entries0[j1] == sorted@[k1];
                        let j2 = choose|j2: int|
                            0 <= j2 < entries0.len() && entries0[j2] == sorted@[k2];
                        assert(entries0[j1].id == entries0[j2].id);
                        if j1 < j2 {
                            assert(entries0[j1].id < entries0[j2].id);
                        }
                        if j2 < j1 {
                            assert(entries0[j2].id < entries0[j1].id);
                        }
                        assert(sorted@[k1] == sorted@[k2]);
                    }
                }
            }
            assert forall|k1: int, k2: int|
                0 <= k1 < k2 < out@.len() implies query_le(
                c.store(),
                sort_column,
                sort_order,
                out@[k1],
                out@[k2],
            ) by {
                assert(entry_le(sort_column, sort_order, sorted@[k1], sorted@[k2]));
            }
        }
        Ok(out)
    }
}

impl Internals {
    /// The fetch proper, run against one snapshot of the store.
    #[verifier::rlimit(100)]
    fn fetch_inner(&mut self, id: i64) -> (r: Result<ShowData, Error>)
        ensures
            final(self).store() == old(self).store(),
            old(self).inv() ==> final(self).inv(),
            r is Ok ==> db_shows(old(self).store()).contains_key(id),
            r matches Ok(d) ==> forall|m: Map<i64, ShowModel>|
                #![auto]
                (old(self).inv() && db_matches(old(self).store(), m) && m.contains_key(id)
                    && m[id].link is Some && m[id].link->Some_0.channel is Some)
                    ==> show_presented(d, m[id]),
    {
        let ghost c0 = *old(self);
        let joined = match select_show_join(&self.conn, id) {
            Ok(Some(t)) => t,
            Ok(None) => {
                return Err(Error::SqlError);
            },
            Err(e) => {
                return Err(e);
            },
        };
        let channel = joined.0;
        let topic = joined.1;
        let row = joined.2;
        let texts = match self.text_fetcher.fetch(&self.conn, row.text_blob_id, row.text_offset, 2) {
            Ok(v) => v,
            Err(e) => {
                return Err(e);
            },
        };
        if texts.len() < 2 {
            return Err(Error::SqlError);
        }
        let has_small = row.url_mask & crate::database::URL_SMALL != 0;
        let has_large = row.url_mask & crate::database::URL_LARGE != 0;
        let count: usize = 2 + (if has_small {
            1
        } else {
            0
        }) + (if has_large {
            1
        } else {
            0
        });
        let urls = match self.url_fetcher.fetch(&self.conn, row.url_blob_id, row.url_offset, count) {
            Ok(v) => v,
            Err(e) => {
                return Err(e);
            },
        };
        if urls.len() < count {
            return Err(Error::SqlError);
        }
        let title = match bytes_to_string(texts[0].as_slice()) {
            Ok(s) => s,
            Err(e) => {
                return Err(e);
            },
        };
        let description = match bytes_to_string(texts[1].as_slice()) {
            Ok(s) => s,
            Err(e) => {
                return Err(e);
            },
        };
        let url = match bytes_to_string(urls[0].as_slice()) {
            Ok(s) => s,
            Err(e) => {
                return Err(e);
            },
        };
        let mut next: usize = 1;
        let url_small = if has_small {
            let s = match bytes_to_string(urls[next].as_slice()) {
                Ok(s) => s,
                Err(e) => {
                    return Err(e);
                },
            };
            next = next + 1;
            Some(s)
        } else {
            None
        };
        let url_large = if has_large {
            let s = match bytes_to_string(urls[next].as_slice()) {
                Ok(s) => s,
                Err(e) => {
                    return Err(e);
                },
            };
            next = next + 1;
            Some(s)
        } else {
            None
        };
        let website = match bytes_to_string(urls[next].as_slice()) {
            Ok(s) => s,
            Err(e) => {
                return Err(e);
            },
        };
        let d = ShowData {
            channel,
            topic,
            title,
            date: row.date,
            time: row.time,
            duration: row.duration,
            description,
            website,
            url,
            url_small,
            url_large,
        };
        proof {
            assert(0u32 & 1u32 == 0u32) by (bit_vector);
            assert(1u32 & 1u32 == 1u32) by (bit_vector);
            assert(2u32 & 1u32 == 0u32) by (bit_vector);
            assert(3u32 & 1u32 == 1u32) by (bit_vector);
            assert(0u32 & 2u32 == 0u32) by (bit_vector);
            assert(1u32 & 2u32 == 0u32) by (bit_vector);
            assert(2u32 & 2u32 == 2u32) by (bit_vector);
            assert(3u32 & 2u32 == 2u32) by (bit_vector);
            assert forall|m: Map<i64, ShowModel>|
                #![auto]
                (c0.inv() && db_matches(c0.store(), m) && m.contains_key(id) && m[id].link
                    is Some && m[id].link->Some_0.channel is Some) implies show_presented(
                d,
                m[id],
            ) by {
                let sm = m[id];
                let it = sm.item;
                assert(show_matches(c0.store(), id, sm));
                assert(row == db_shows(c0.store())[id]);
                chunk_parts_agree(it);
                let s = choose|s: Seq<u8>|
                    db_blobs(c0.store())[row.text_blob_id] == compress_of(s) && s.len()
                        <= u32::MAX && #[trigger] chunk_at(
                        s,
                        row.text_offset as int,
                        text_chunk(it),
                    );
                read_chunk_strings(s, row.text_offset as int, text_parts(it), 2);
                assert(strings_match(texts@, nul_strings_from(s, row.text_offset as int, 2)));
                assert(texts@[0]@ == encode_utf8(it.title));
                assert(texts@[1]@ == encode_utf8(it.description));
                vstd::utf8::encode_utf8_decode_utf8(it.title);
                vstd::utf8::encode_utf8_decode_utf8(d.title@);
                assert(d.title@ == it.title);
                vstd::utf8::encode_utf8_decode_utf8(it.description);
                vstd::utf8::encode_utf8_decode_utf8(d.description@);
                assert(d.description@ == it.description);
                assert(row.url_mask == crate::database::mask_of(it));
                assert(has_small <==> it.url_small is Some);
                assert(has_large <==> it.url_large is Some);
                let su = choose|su: Seq<u8>|
                    db_blobs(c0.store())[row.url_blob_id] == compress_of(su) && su.len()
                        <= u32::MAX && #[trigger] chunk_at(
                        su,
                        row.url_offset as int,
                        url_chunk(it),
                    );
                let up = url_parts(it);
                assert(up.len() == count) by {
                    if it.url_small is Some && it.url_large is Some {
                        assert(up =~= seq![
                            encode_utf8(it.url),
                            encode_utf8(it.url_small->Some_0),
                            encode_utf8(it.url_large->Some_0),
                            encode_utf8(it.website),
                        ]);
                    } else if it.url_small is Some {
                        assert(up =~= seq![
                            encode_utf8(it.url),
                            encode_utf8(it.url_small->Some_0),
                            encode_utf8(it.website),
                        ]);
                    } else if it.url_large is Some {
                        assert(up =~= seq![
                            encode_utf8(it.url),
                            encode_utf8(it.url_large->Some_0),
                            encode_utf8(it.website),
                        ]);
                    } else {
                        assert(up =~= seq![encode_utf8(it.url), encode_utf8(it.website)]);
                    }
                }
                read_chunk_strings(su, row.url_offset as int, up, count as nat);
                assert(strings_match(
                    urls@,
                    nul_strings_from(su, row.url_offset as int, count as nat),
                ));
                assert(urls@[0]@ == encode_utf8(it.url));
                vstd::utf8::encode_utf8_decode_utf8(it.url);
                vstd::utf8::encode_utf8_decode_utf8(d.url@);
                assert(d.url@ == it.url);
                vstd::utf8::encode_utf8_decode_utf8(it.website);
                vstd::utf8::encode_utf8_decode_utf8(d.website@);
                assert(urls@[count - 1]@ == encode_utf8(it.website));
                assert(d.website@ == it.website);
                if it.url_small is Some {
                    assert(urls@[1]@ == encode_utf8(it.url_small->Some_0));
                    vstd::utf8::encode_utf8_decode_utf8(it.url_small->Some_0);
                    vstd::utf8::encode_utf8_decode_utf8(d.url_small->Some_0@);
                    assert(d.url_small->Some_0@ == it.url_small->Some_0);
                }
                if it.url_large is Some {
                    let li: int = if it.url_small is Some {
                        2
                    } else {
                        1
                    };
                    assert(urls@[li]@ == encode_utf8(it.url_large->Some_0));
                    vstd::utf8::encode_utf8_decode_utf8(it.url_large->Some_0);
                    vstd::utf8::encode_utf8_decode_utf8(d.url_large->Some_0@);
                    assert(d.url_large->Some_0@ == it.url_large->Some_0);
                }
            }
        }
        Ok(d)
    }
}

/// A cache that agrees with one connection state agrees with any
/// state with the same contents.
proof fn wf_transfer(f: BlobFetcher, c1: rusqlite::Connection, c2: rusqlite::Connection)
    requires
        store_same(c1, c2),
        f.wf(c1),
    ensures
        f.wf(c2),
{
}

impl Internals {
    /// Searches shows by channel prefix, topic prefix and title query,
    /// inside one read transaction so that all its lookups see one
    /// snapshot, returning the matching ids in the requested order.
    pub fn query(
        &mut self,
        channel: &str,
        topic: &str,
        title: &str,
        sort_column: SortColumn,
        sort_order: SortOrder,
    ) -> (r: Result<Vec<i64>, Error>)
        ensures
            r is Ok ==> store_same(old(self).store(), final(self).store()),
            r is Ok ==> (old(self).inv() ==> final(self).inv()),
            r matches Ok(v) ==> {
                let c = old(self).store();
                &&& forall|k: int|
                    0 <= k < v@.len() ==> query_accepts(
                        c,
                        channel@,
                        topic@,
                        title@,
                        #[trigger] v@[k],
                    )
                &&& forall|id: i64| #[trigger]
                    query_accepts(c, channel@, topic@, title@, id) ==> v@.contains(id)
                &&& v@.no_duplicates()
                &&& forall|k1: int, k2: int|
                    0 <= k1 < k2 < v@.len() ==> query_le(c, sort_column, sort_order, v@[k1], v@[k2])
            },
    {
        let ghost self0 = *self;
        match begin_transaction(&mut self.conn) {
            Ok(()) => {},
            Err(e) => {
                return Err(e);
            },
        }
        let ghost self1 = *self;
        let inner = match self.query_inner(channel, topic, title, sort_column, sort_order) {
            Ok(v) => v,
            Err(e) => {
                rollback_transaction(&mut self.conn);
                return Err(e);
            },
        };
        match commit_transaction(&mut self.conn) {
            Ok(()) => {},
            Err(e) => {
                rollback_transaction(&mut self.conn);
                return Err(e);
            },
        }
        proof {
            assert forall|k: int| 0 <= k < inner@.len() implies query_accepts(
                self0.store(),
                channel@,
                topic@,
                title@,
                #[trigger] inner@[k],
            ) by {
                assert(query_accepts(self1.store(), channel@, topic@, title@, inner@[k]));
            }
            assert forall|id: i64| #[trigger]
                query_accepts(self0.store(), channel@, topic@, title@, id) implies inner@.contains(
                id,
            ) by {
                assert(query_accepts(self1.store(), channel@, topic@, title@, id));
            }
            assert forall|k1: int, k2: int| 0 <= k1 < k2 < inner@.len() implies query_le(
                self0.store(),
                sort_column,
                sort_order,
                inner@[k1],
                inner@[k2],
            ) by {
                assert(query_le(self1.store(), sort_column, sort_order, inner@[k1], inner@[k2]));
            }
            if self0.inv() {
                wf_transfer(self1.text_fetcher, self0.store(), self1.store());
                wf_transfer(self1.url_fetcher, self0.store(), self1.store());
                wf_transfer(self.text_fetcher, self1.store(), self.store());
                wf_transfer(self.url_fetcher, self1.store(), self.store());
            }
        }
        Ok(inner)
    }

    /// Fetches one show inside one read transaction, so that the row
    /// and both blob reads see one snapshot: the filing names, the
    /// stored integer fields, and the record's strings sliced back out
    /// of the two blobs at their stored offsets.
    pub fn fetch(&mut self, id: i64) -> (r: Result<ShowData, Error>)
        ensures
            r is Ok ==> store_same(old(self).store(), final(self).store()),
            r is Ok ==> (old(self).inv() ==> final(self).inv()),
            r is Ok ==> db_shows(old(self).store()).contains_key(id),
            r matches Ok(d) ==> forall|m: Map<i64, ShowModel>|
                #![auto]
                (old(self).inv() && db_matches(old(self).store(), m) && m.contains_key(id)
                    && m[id].link is Some && m[id].link->Some_0.channel is Some)
                    ==> show_presented(d, m[id]),
    {
        let ghost self0 = *self;
        match begin_transaction(&mut self.conn) {
            Ok(()) => {},
            Err(e) => {
                return Err(e);
            },
        }
        let ghost self1 = *self;
        let inner = match self.fetch_inner(id) {
            Ok(d) => d,
            Err(e) => {
                rollback_transaction(&mut self.conn);
                return Err(e);
            },
        };
        match commit_transaction(&mut self.conn) {
            Ok(()) => {},
            Err(e) => {
                rollback_transaction(&mut self.conn);
                return Err(e);
            },
        }
        proof {
            assert(db_shows(self0.store()) == db_shows(self1.store()));
            assert forall|m: Map<i64, ShowModel>|
                #![auto]
                (self0.inv() && db_matches(self0.store(), m) && m.contains_key(id) && m[id].link
                    is Some && m[id].link->Some_0.channel is Some) implies show_presented(
                inner,
                m[id],
            ) by {
                wf_transfer(self1.text_fetcher, self0.store(), self1.store());
                wf_transfer(self1.url_fetcher, self0.store(), self1.store());
                db_matches_transfer(self0.store(), self1.store(), m);
            }
            if self0.inv() {
                wf_transfer(self1.text_fetcher, self0.store(), self1.store());
                wf_transfer(self1.url_fetcher, self0.store(), self1.store());
                wf_transfer(self.text_fetcher, self1.store(), self.store());
                wf_transfer(self.url_fetcher, self1.store(), self.store());
            }
        }
        Ok(inner)
    }
}

} // verus!
