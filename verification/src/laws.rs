//! The library's stated laws, proved from the public contracts: what
//! an index that fits its model guarantees about rows, blobs and the
//! title index, and how filing inheritance resolves.

use vstd::prelude::*;

use crate::database::{
    blob_has, channel_state, db_matches, dedup_trace, full_outcome, link_state, partial_outcome,
    show_matches, text_chunk, topic_row_matches, url_chunk, was_removed, ShowLink, ShowModel,
    UpdateWitness,
};
use crate::item::ItemModel;
use crate::store::{db_blobs, db_channels, db_shows, db_titles, db_topics};

verus! {

/// Law: after a full rebuild there is exactly one row per ingested
/// record, in ingestion order, and nothing else.
pub proof fn law_one_row_per_record(
    c0: rusqlite::Connection,
    c1: rusqlite::Connection,
    m: Map<i64, ShowModel>,
    ids: Seq<i64>,
    src: Seq<ItemModel>,
    k: int,
)
    requires
        full_outcome(c0, c1, m, ids, src),
        0 <= k < ids.len(),
    ensures
        m.contains_key(ids[k]),
        m[ids[k]].item == src[k],
        forall|k2: int| 0 <= k2 < ids.len() && k2 != k ==> ids[k2] != ids[k],
        m.dom() =~= ids.to_set(),
{
    assert(m.dom() =~= Set::<i64>::empty() + ids.to_set());
}

/// Law: every show's two blob references point at stored blobs.
pub proof fn law_blobs_exist(c: rusqlite::Connection, m: Map<i64, ShowModel>, id: i64)
    requires
        db_matches(c, m),
        m.contains_key(id),
    ensures
        db_blobs(c).contains_key(db_shows(c)[id].text_blob_id),
        db_blobs(c).contains_key(db_shows(c)[id].url_blob_id),
{
}

/// Law: every show's text blob decompresses to content carrying its
/// title and description, null-terminated, at the stored offset, and
/// its URL blob likewise carries the URL, the mask-selected variants
/// and the website.
pub proof fn law_blob_round_trip(c: rusqlite::Connection, m: Map<i64, ShowModel>, id: i64)
    requires
        db_matches(c, m),
        m.contains_key(id),
    ensures
        blob_has(
            c,
            db_shows(c)[id].text_blob_id,
            db_shows(c)[id].text_offset as int,
            text_chunk(m[id].item),
        ),
        blob_has(
            c,
            db_shows(c)[id].url_blob_id,
            db_shows(c)[id].url_offset as int,
            url_chunk(m[id].item),
        ),
{
}

/// Law: the title index holds exactly one entry per show row, under
/// the row's id, carrying the show's title.
pub proof fn law_title_index_in_sync(c: rusqlite::Connection, m: Map<i64, ShowModel>)
    requires
        db_matches(c, m),
    ensures
        db_titles(c).dom() == db_shows(c).dom(),
        forall|id: i64| #[trigger]
            m.contains_key(id) ==> db_titles(c)[id] == m[id].item.title,
{
}

/// Law: two shows filed under one topic and channel name share one
/// topic row: names pin the row ids, because no two channel rows share
/// a name and no two topic rows share a name under one channel row.
pub proof fn law_same_filing_same_topic_row(
    c: rusqlite::Connection,
    m: Map<i64, ShowModel>,
    id1: i64,
    id2: i64,
)
    requires
        db_matches(c, m),
        m.contains_key(id1),
        m.contains_key(id2),
        m[id1].link is Some,
        m[id1].link == m[id2].link,
        m[id1].link->Some_0.channel is Some,
    ensures
        db_shows(c)[id1].topic_id == db_shows(c)[id2].topic_id,
{
    assert(show_matches(c, id1, m[id1]));
    assert(show_matches(c, id2, m[id2]));
    let t1 = db_shows(c)[id1].topic_id;
    let t2 = db_shows(c)[id2].topic_id;
    assert(db_channels(c)[db_topics(c)[t1].channel_id] == db_channels(c)[db_topics(
        c,
    )[t2].channel_id]);
    assert(db_topics(c)[t1].channel_id == db_topics(c)[t2].channel_id);
    assert(db_topics(c)[t1].topic == db_topics(c)[t2].topic);
}

/// Law: a record with a topic but an empty channel is filed under the
/// channel in effect before it.
pub proof fn law_channel_reuse(src: Seq<ItemModel>, k: int)
    requires
        0 <= k < src.len(),
        src[k].topic.len() > 0,
        src[k].channel.len() == 0,
    ensures
        link_state(src, k + 1) == Some(
            ShowLink { topic: src[k].topic, channel: channel_state(src, k) },
        ),
        channel_state(src, k + 1) == channel_state(src, k),
{
}

/// Law: a record without a topic keeps the filing of the record
/// before it; without a channel it also keeps the channel in effect.
pub proof fn law_filing_inherited(src: Seq<ItemModel>, k: int)
    requires
        0 <= k < src.len(),
        src[k].topic.len() == 0,
    ensures
        link_state(src, k + 1) == link_state(src, k),
        src[k].channel.len() == 0 ==> channel_state(src, k + 1) == channel_state(src, k),
{
}

/// Law: when a partial update re-feeds a record whose title and URL
/// matched exactly one old row of its topic row, that old row is the
/// one its scan deleted, and it is not kept.  The hypotheses say the
/// record's filing resolves to a channel, the old row carried the same
/// filing, title and URL, no other old row of that topic row matched,
/// and no other fed record carried the same title, URL and topic row.
pub proof fn law_refeed_deletes_the_duplicate(
    c0: rusqlite::Connection,
    c1: rusqlite::Connection,
    m0: Map<i64, ShowModel>,
    w: UpdateWitness,
    src: Seq<ItemModel>,
    k: int,
    rid: i64,
)
    requires
        partial_outcome(c0, c1, m0, w, src),
        0 <= k < src.len(),
        link_state(src, k + 1) is Some,
        link_state(src, k + 1)->Some_0.channel is Some,
        m0.contains_key(rid),
        m0[rid].link == link_state(src, k + 1),
        m0[rid].item.title == src[k].title,
        m0[rid].item.url == src[k].url,
        forall|rid2: i64|
            #![trigger m0.index(rid2)]
            m0.contains_key(rid2) && rid2 != rid && db_shows(c0)[rid2].topic_id == db_shows(
                c0,
            )[rid].topic_id ==> !(m0[rid2].item.title == src[k].title && m0[rid2].item.url
                == src[k].url),
        forall|k2: int|
            0 <= k2 < src.len() && k2 != k ==> !(src[k2].title == src[k].title && src[k2].url
                == src[k].url && #[trigger] w.tids[k2] == w.tids[k]),
    ensures
        w.removed[k] == Some(rid),
        !w.kept.contains(rid),
{
    reveal(crate::database::dedup_trace);
    reveal(crate::database::channels_pinned);
    reveal(crate::database::topics_pinned);
    let l = link_state(src, k + 1)->Some_0;
    let cn = l.channel->Some_0;
    let t_pre = db_shows(c0)[rid].topic_id;
    let ss0 = crate::store::db_shows_seq(c0);
    assert(show_matches(c0, rid, m0[rid]));
    assert(rid <= ss0);
    // the record's topic row in the new state is the old row's topic row
    assert(topic_row_matches(c1, w.tids[k], (l.topic, Some(cn))));
    assert(db_topics(c1).contains_key(t_pre) && db_topics(c1)[t_pre] == db_topics(c0)[t_pre]);
    assert(db_channels(c1).contains_key(db_topics(c0)[t_pre].channel_id) && db_channels(
        c1,
    )[db_topics(c0)[t_pre].channel_id] == db_channels(c0)[db_topics(c0)[t_pre].channel_id]);
    assert(db_channels(c1)[db_topics(c1)[t_pre].channel_id] == cn);
    assert(db_topics(c1)[w.tids[k]].channel_id == db_topics(c1)[t_pre].channel_id);
    assert(t_pre == w.tids[k]);
    // the old row stays eligible until the record's own scan
    assert(crate::store::db_shows(c0).contains_key(rid));
    assert(!was_removed(w.removed.take(k), rid)) by {
        if was_removed(w.removed.take(k), rid) {
            let k2 = choose|k2: int|
                0 <= k2 < w.removed.take(k).len() && w.removed.take(k)[k2] == Some(rid);
            assert(w.removed[k2] == Some(rid));
            assert(m0[rid].item.title == src[k2].title && m0[rid].item.url == src[k2].url);
            assert(db_shows(c0)[rid].topic_id == w.tids[k2]);
            assert(w.tids[k2] == w.tids[k]);
        }
    }
    // so the scan cannot have come up empty
    match w.removed[k as int] {
        Some(rid2) => {
            assert(db_shows(c0)[rid2].topic_id == w.tids[k]);
            if rid2 != rid {
                assert(!(m0[rid2].item.title == src[k].title && m0[rid2].item.url
                    == src[k].url));
            }
            assert(rid2 == rid);
        },
        None => {
            assert(!(m0[rid].item.title == src[k].title && m0[rid].item.url == src[k].url));
            assert(false);
        },
    }
    assert(was_removed(w.removed, rid)) by {
        assert(w.removed[k as int] == Some(rid));
    }
}

} // verus!
