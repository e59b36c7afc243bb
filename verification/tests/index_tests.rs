use std::sync::mpsc::sync_channel;
use std::time::{SystemTime, UNIX_EPOCH};

use mediathek_index::database::{full_update, partial_update, BlobFetcher, ItemSource};
use mediathek_index::item::{Date, Item, Time};
use mediathek_index::queries::{Internals, SortColumn, SortOrder};
use mediathek_index::store::{
    begin_transaction, commit_transaction, create_schema, open_connection, read_user_version,
    rollback_transaction, run_analyze, schema_is_current, checkpoint_wal,
};
use mediathek_index::Error;

fn fresh_db(tag: &str) -> rusqlite::Connection {
    let nanos = SystemTime::now().duration_since(UNIX_EPOCH).unwrap().as_nanos();
    let path = format!("/tmp/mediathek_index_{}_{}", tag, nanos);
    let mut conn = open_connection(&path).unwrap();
    create_schema(&mut conn).unwrap();
    conn
}

fn item(channel: &str, topic: &str, title: &str) -> Item {
    Item {
        channel: channel.to_owned(),
        topic: topic.to_owned(),
        title: title.to_owned(),
        date: Date { year: 2024, month: 2, day: 1 },
        time: Time { hour: 20, minute: 15, second: 0 },
        duration: Time { hour: 0, minute: 45, second: 0 },
        description: "desc".to_owned(),
        website: "https://ex.org".to_owned(),
        url: "https://ex.org/a".to_owned(),
        url_small: Some("https://ex.org/a.s".to_owned()),
        url_large: Some("https://ex.org/a l".to_owned()),
    }
}

fn source_of(items: Vec<Item>) -> ItemSource {
    let (tx, rx) = sync_channel(items.len() + 1);
    for it in items {
        tx.send(it).unwrap();
    }
    drop(tx);
    ItemSource::new(rx)
}

fn run_full(conn: &mut rusqlite::Connection, items: Vec<Item>) -> Result<(), Error> {
    let mut source = source_of(items);
    begin_transaction(conn)?;
    let r = full_update(conn, &mut source);
    if r.is_ok() {
        run_analyze(conn)?;
        commit_transaction(conn)?;
        checkpoint_wal(conn)?;
    } else {
        rollback_transaction(conn);
    }
    r
}

fn run_partial(conn: &mut rusqlite::Connection, items: Vec<Item>) -> Result<(), Error> {
    let mut source = source_of(items);
    begin_transaction(conn)?;
    let r = partial_update(conn, &mut source);
    if r.is_ok() {
        run_analyze(conn)?;
        commit_transaction(conn)?;
        checkpoint_wal(conn)?;
    } else {
        rollback_transaction(conn);
    }
    r
}

#[test]
fn single_record_full_update() {
    let mut conn = fresh_db("single");
    run_full(&mut conn, vec![item("ARD", "Topic A", "Title 1")]).unwrap();

    let mut internals = Internals::new(conn);
    let channels = internals.channels().unwrap();
    assert_eq!(vec!["ARD".to_owned()], channels);

    let topics = internals.topics("A").unwrap();
    assert_eq!(vec!["Topic A".to_owned()], topics);

    let ids = internals
        .query("", "", "Title", SortColumn::Date, SortOrder::Descending)
        .unwrap();
    assert_eq!(vec![1i64], ids);

    let show = internals.fetch(1).unwrap();
    assert_eq!("ARD", show.channel);
    assert_eq!("Topic A", show.topic);
    assert_eq!("Title 1", show.title);
    assert_eq!("desc", show.description);
    assert_eq!("https://ex.org", show.website);
    assert_eq!("https://ex.org/a", show.url);
    assert_eq!(Some("https://ex.org/a.s".to_owned()), show.url_small);
    assert_eq!(Some("https://ex.org/a l".to_owned()), show.url_large);
    assert_eq!(2460342, show.date);
    assert_eq!(72900, show.time);
    assert_eq!(2700, show.duration);
}

#[test]
fn optional_urls_follow_the_mask() {
    let mut conn = fresh_db("mask");
    let mut it = item("ARD", "T", "T1");
    it.url_small = None;
    run_full(&mut conn, vec![it]).unwrap();
    let mut internals = Internals::new(conn);
    let show = internals.fetch(1).unwrap();
    assert_eq!(None, show.url_small);
    assert_eq!(Some("https://ex.org/a l".to_owned()), show.url_large);
    assert_eq!("https://ex.org", show.website);
}

#[test]
fn channel_and_topic_inheritance() {
    let mut conn = fresh_db("inherit");
    let first = item("A", "T", "first");
    let second = item("", "", "second");
    run_full(&mut conn, vec![first, second]).unwrap();

    let mut internals = Internals::new(conn);
    let ids = internals
        .query("", "", "", SortColumn::Channel, SortOrder::Ascending)
        .unwrap();
    assert_eq!(2, ids.len());
    let a = internals.fetch(ids[0]).unwrap();
    let b = internals.fetch(ids[1]).unwrap();
    assert_eq!(a.channel, b.channel);
    assert_eq!(a.topic, b.topic);
    assert_eq!("A", a.channel);
    assert_eq!("T", a.topic);
}

#[test]
fn empty_channel_reuses_last_channel() {
    let mut conn = fresh_db("reuse");
    let first = item("A", "T", "first");
    let second = item("", "U", "second");
    run_full(&mut conn, vec![first, second]).unwrap();

    let mut internals = Internals::new(conn);
    let channels = internals.channels().unwrap();
    assert_eq!(vec!["A".to_owned()], channels);
    let topics = internals.topics("A").unwrap();
    assert_eq!(2, topics.len());
    assert!(topics.contains(&"T".to_owned()));
    assert!(topics.contains(&"U".to_owned()));
}

#[test]
fn partial_update_deduplicates() {
    let mut conn = fresh_db("dedup");
    run_full(&mut conn, vec![item("ARD", "Topic A", "Title 1")]).unwrap();
    run_partial(&mut conn, vec![item("ARD", "Topic A", "Title 1")]).unwrap();

    let mut internals = Internals::new(conn);
    let ids = internals
        .query("", "", "", SortColumn::Date, SortOrder::Descending)
        .unwrap();
    assert_eq!(1, ids.len());
    // the replacement row got a fresh id and kept one full-text entry
    let by_title = internals
        .query("", "", "Title", SortColumn::Date, SortOrder::Descending)
        .unwrap();
    assert_eq!(ids, by_title);
    let show = internals.fetch(ids[0]).unwrap();
    assert_eq!("Title 1", show.title);
}

#[test]
fn partial_update_keeps_other_titles() {
    let mut conn = fresh_db("dedup2");
    run_full(
        &mut conn,
        vec![item("ARD", "Topic A", "Title 1"), item("", "", "Title 2")],
    )
    .unwrap();
    run_partial(&mut conn, vec![item("ARD", "Topic A", "Title 1")]).unwrap();

    let mut internals = Internals::new(conn);
    let ids = internals
        .query("", "", "", SortColumn::Date, SortOrder::Descending)
        .unwrap();
    assert_eq!(2, ids.len());
}

#[test]
fn embedded_nul_aborts_before_rows() {
    let mut conn = fresh_db("nul");
    let mut bad = item("ARD", "T", "bad\0title");
    bad.description = "d".to_owned();
    let r = run_full(&mut conn, vec![bad]);
    assert!(matches!(r, Err(Error::EmbeddedNul)));

    let mut internals = Internals::new(conn);
    let ids = internals
        .query("", "", "", SortColumn::Date, SortOrder::Descending)
        .unwrap();
    assert_eq!(0, ids.len());
}

#[test]
fn invalid_date_is_refused() {
    let mut conn = fresh_db("baddate");
    let mut bad = item("ARD", "T", "T1");
    bad.date = Date { year: 2024, month: 13, day: 1 };
    assert!(matches!(run_full(&mut conn, vec![bad]), Err(Error::BadDate)));
}

#[test]
fn rotation_spreads_shows_over_blobs() {
    let mut conn = fresh_db("rotate");
    // two records whose descriptions alone exceed the text threshold,
    // so the staging buffer rotates between them and once more at the end
    let mut first = item("ARD", "T", "first");
    first.description = "x".repeat(300 * 1024);
    let mut second = item("", "", "second");
    second.description = "y".repeat(300 * 1024);
    run_full(&mut conn, vec![first, second]).unwrap();

    let mut internals = Internals::new(conn);
    let a = internals.fetch(1).unwrap();
    let b = internals.fetch(2).unwrap();
    assert_eq!("first", a.title);
    assert_eq!("x".repeat(300 * 1024), a.description);
    assert_eq!("second", b.title);
    assert_eq!("y".repeat(300 * 1024), b.description);
}

#[test]
fn sort_orders() {
    let mut conn = fresh_db("sort");
    let mut a = item("A", "T", "alpha");
    a.date = Date { year: 2024, month: 1, day: 2 };
    let mut b = item("", "", "beta");
    b.date = Date { year: 2024, month: 1, day: 1 };
    run_full(&mut conn, vec![a, b]).unwrap();

    let mut internals = Internals::new(conn);
    let desc = internals
        .query("", "", "", SortColumn::Date, SortOrder::Descending)
        .unwrap();
    assert_eq!(vec![1i64, 2], desc);
    let asc = internals
        .query("", "", "", SortColumn::Date, SortOrder::Ascending)
        .unwrap();
    assert_eq!(vec![2i64, 1], asc);
}

#[test]
fn schema_wipe_on_version_mismatch() {
    // a freshly created database file carries schema revision zero,
    // which the library refuses and replaces
    let nanos = SystemTime::now().duration_since(UNIX_EPOCH).unwrap().as_nanos();
    let path = format!("/tmp/mediathek_index_wipe_{}", nanos);
    let mut conn = open_connection(&path).unwrap();
    let before = read_user_version(&conn).unwrap();
    assert!(!schema_is_current(before));
    create_schema(&mut conn).unwrap();
    let after = read_user_version(&conn).unwrap();
    assert!(schema_is_current(after));

    let mut internals = Internals::new(conn);
    assert_eq!(0, internals.channels().unwrap().len());
}

#[test]
fn missing_blob_is_reported() {
    let conn = fresh_db("noblob");
    let mut fetcher = BlobFetcher::new();
    let r = fetcher.fetch(&conn, 7, 0, 1);
    assert!(matches!(r, Err(Error::MissingBlob(7))));
}

#[test]
fn blob_layout_holds_title_then_description() {
    let nanos = SystemTime::now().duration_since(UNIX_EPOCH).unwrap().as_nanos();
    let path = format!("/tmp/mediathek_index_layout_{}", nanos);
    let mut conn = open_connection(&path).unwrap();
    create_schema(&mut conn).unwrap();
    run_full(&mut conn, vec![item("ARD", "Topic A", "Title 1")]).unwrap();

    // the first text blob starts with the first record's strings
    let mut fetcher = BlobFetcher::new();
    let strings = fetcher.fetch(&conn, 1, 0, 2).unwrap();
    assert_eq!(2, strings.len());
    assert_eq!(b"Title 1".to_vec(), strings[0]);
    assert_eq!(b"desc".to_vec(), strings[1]);
}

#[test]
fn title_index_count_matches_show_count() {
    let nanos = SystemTime::now().duration_since(UNIX_EPOCH).unwrap().as_nanos();
    let path = format!("/tmp/mediathek_index_count_{}", nanos);
    let mut conn = open_connection(&path).unwrap();
    create_schema(&mut conn).unwrap();
    run_full(
        &mut conn,
        vec![item("A", "T", "one"), item("", "", "two"), item("B", "U", "three")],
    )
    .unwrap();
    run_partial(&mut conn, vec![item("A", "T", "one")]).unwrap();

    let direct = rusqlite::Connection::open(&path).unwrap();
    let shows: i64 = direct
        .query_row("SELECT COUNT(*) FROM shows", [], |row| row.get(0))
        .unwrap();
    let titles: i64 = direct
        .query_row("SELECT COUNT(*) FROM shows_by_title", [], |row| row.get(0))
        .unwrap();
    assert_eq!(3, shows);
    assert_eq!(shows, titles);
}

#[test]
fn query_filters_by_channel_and_topic() {
    let mut conn = fresh_db("filters");
    run_full(
        &mut conn,
        vec![item("ARD", "News", "one"), item("ZDF", "Sports", "two")],
    )
    .unwrap();

    let mut internals = Internals::new(conn);
    let ard = internals
        .query("AR", "", "", SortColumn::Date, SortOrder::Descending)
        .unwrap();
    assert_eq!(vec![1i64], ard);
    let sports = internals
        .query("", "Spo", "", SortColumn::Date, SortOrder::Descending)
        .unwrap();
    assert_eq!(vec![2i64], sports);
    let none = internals
        .query("ORF", "", "", SortColumn::Date, SortOrder::Descending)
        .unwrap();
    assert!(none.is_empty());
}

#[test]
fn decompressor_rejects_garbage() {
    let mut decompr = mediathek_index::compressor::Decompressor::new();
    assert!(decompr.decompress(&[1, 2, 3, 4]).is_err());
    assert_eq!(0, decompr.buf().len());
}

#[test]
fn channel_sort_goes_by_topic_row_not_name() {
    let mut conn = fresh_db("chansort");
    run_full(
        &mut conn,
        vec![item("ZDF", "Zeta", "one"), item("ARD", "Alpha", "two")],
    )
    .unwrap();

    let mut internals = Internals::new(conn);
    // the channel ordering goes by the topic row id, so the first
    // ingested channel stays first whatever its name
    let by_channel = internals
        .query("", "", "", SortColumn::Channel, SortOrder::Ascending)
        .unwrap();
    assert_eq!(vec![1i64, 2], by_channel);
    // the topic ordering goes by the topic name instead
    let by_topic = internals
        .query("", "", "", SortColumn::Topic, SortOrder::Ascending)
        .unwrap();
    assert_eq!(vec![2i64, 1], by_topic);
}

#[test]
fn channel_without_topic_updates_filing() {
    // a record that names a channel but no topic changes the channel
    // in effect for the records after it
    let mut conn = fresh_db("chanonly");
    let first = item("A", "T", "first");
    let mut switch = item("B", "", "second");
    switch.url = "u2".to_owned();
    let third = item("", "U", "third");
    run_full(&mut conn, vec![first, switch, third]).unwrap();

    let mut internals = Internals::new(conn);
    let channels = internals.channels().unwrap();
    assert_eq!(2, channels.len());
    assert!(channels.contains(&"A".to_owned()));
    assert!(channels.contains(&"B".to_owned()));
    let under_b = internals.topics("B").unwrap();
    assert_eq!(vec!["U".to_owned()], under_b);
    let show = internals.fetch(3).unwrap();
    assert_eq!("B", show.channel);
    assert_eq!("U", show.topic);
}

#[test]
fn failed_query_leaves_the_handle_usable() {
    let mut conn = fresh_db("wedge");
    run_full(&mut conn, vec![item("ARD", "Topic A", "Title 1")]).unwrap();
    let mut internals = Internals::new(conn);
    // a lone quote is refused by the title-match syntax
    let bad = internals.query("", "", "\"", SortColumn::Date, SortOrder::Descending);
    assert!(bad.is_err());
    // the handle must not stay wedged in the failed read transaction
    let ids = internals
        .query("", "", "Title", SortColumn::Date, SortOrder::Descending)
        .unwrap();
    assert_eq!(vec![1i64], ids);
    let show = internals.fetch(1).unwrap();
    assert_eq!("Title 1", show.title);
}
