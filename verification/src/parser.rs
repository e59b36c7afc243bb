//! The streaming catalog parser.
//!
//! The payload is one JSON object holding a header array and one `"X"`
//! array per show record.  The parser scans a growing byte buffer for
//! the fixed framing delimiters, slices each record region, and decodes
//! it as a twenty-value tuple.  Framing, field assembly, date, time and
//! URL-suffix parsing are verified; the JSON tuple and string decoding
//! go through trusted items around the JSON crate.

use vstd::prelude::*;
use vstd::string::StringSliceAdditionalSpecFns;
use vstd::string::StringExecFns;
use vstd::utf8::{decode_utf8, encode_utf8, is_char_boundary};

use crate::item::{valid_date, valid_time, Date, Item, ItemModel, Time};
use crate::text::{
    copy_range, find_from, first_byte_from, first_match_from, first_match_from_is_least,
    match_at, parse_int, parse_uint, scan_byte_from, spec_parse_int, spec_parse_uint,
};
use crate::Error;

verus! {

/// The bytes `{"Filmliste":[` opening the header array.
pub open spec fn hdr_prefix() -> Seq<u8> {
    seq![123u8, 34u8, 70u8, 105u8, 108u8, 109u8, 108u8, 105u8, 115u8, 116u8, 101u8, 34u8, 58u8, 91u8]
}

/// The bytes `],"X":[` closing one array and opening the next record.
pub open spec fn rec_suffix() -> Seq<u8> {
    seq![93u8, 44u8, 34u8, 88u8, 34u8, 58u8, 91u8]
}

/// The bytes `"X":[` opening a record.
pub open spec fn item_prefix() -> Seq<u8> {
    seq![34u8, 88u8, 34u8, 58u8, 91u8]
}

/// The bytes `]}` closing the last record and the payload.
pub open spec fn last_suffix() -> Seq<u8> {
    seq![93u8, 125u8]
}

fn hdr_prefix_bytes() -> (r: Vec<u8>)
    ensures
        r@ == hdr_prefix(),
{
    let r = vec![123u8, 34u8, 70u8, 105u8, 108u8, 109u8, 108u8, 105u8, 115u8, 116u8, 101u8, 34u8, 58u8, 91u8];
    proof {
        assert(r@ =~= hdr_prefix());
    }
    r
}

fn rec_suffix_bytes() -> (r: Vec<u8>)
    ensures
        r@ == rec_suffix(),
{
    let r = vec![93u8, 44u8, 34u8, 88u8, 34u8, 58u8, 91u8];
    proof {
        assert(r@ =~= rec_suffix());
    }
    r
}

fn item_prefix_bytes() -> (r: Vec<u8>)
    ensures
        r@ == item_prefix(),
{
    let r = vec![34u8, 88u8, 34u8, 58u8, 91u8];
    proof {
        assert(r@ =~= item_prefix());
    }
    r
}

/// Whether `buf` holds `pat` starting at `start`.
fn starts_with_at(buf: &[u8], start: usize, pat: &Vec<u8>) -> (r: bool)
    requires
        start <= buf@.len(),
    ensures
        r <==> (start + pat@.len() <= buf@.len() && buf@.subrange(
            start as int,
            start as int + pat@.len() as int,
        ) =~= pat@),
{
    let total = buf.len();
    if total - start < pat.len() {
        return false;
    }
    let mut i: usize = 0;
    while i < pat.len()
        invariant
            total == buf@.len(),
            start + pat@.len() <= total,
            i <= pat@.len(),
            forall|j: int| 0 <= j < i ==> buf@[start + j] == pat@[j],
        decreases pat@.len() - i,
    {
        if buf[start + i] != pat[i] {
            proof {
                let sub = buf@.subrange(start as int, start as int + pat@.len() as int);
                assert(sub[i as int] == buf@[start + i]);
            }
            return false;
        }
        i = i + 1;
    }
    proof {
        assert(buf@.subrange(start as int, start as int + pat@.len() as int) =~= pat@);
    }
    true
}

/// The twenty raw value texts of a JSON array of exactly twenty
/// values, if the bytes are exactly such an array.
pub uninterp spec fn json_raw20_of(b: Seq<u8>) -> Option<Seq<Seq<char>>>;

/// The text a JSON string literal denotes, if the input is exactly one
/// JSON string.
pub uninterp spec fn json_str_of(raw: Seq<char>) -> Option<Seq<char>>;

/// Relies on the JSON crate deserializing a borrowed array of twenty
/// raw values: it succeeds exactly on a JSON array of twenty values,
/// and each element's raw text is handed back in order.
#[verifier::external_body]
fn json_split_record(bytes: &Vec<u8>) -> (r: Result<Vec<String>, Error>)
    ensures
        r matches Ok(v) ==> json_raw20_of(bytes@) matches Some(raws) && v@.len() == 20
            && raws.len() == 20 && forall|i: int| 0 <= i < 20 ==> (#[trigger] v@[i])@ == raws[i],
        r is Err <==> json_raw20_of(bytes@) is None,
        r matches Err(e) ==> e == Error::JsonError,
{
    let vals: [&serde_json::value::RawValue; 20] = match serde_json::from_slice(bytes) {
        Ok(vals) => vals,
        Err(_) => return Err(Error::JsonError),
    };
    let mut out = Vec::with_capacity(20);
    for v in vals.iter() {
        out.push(v.get().to_owned());
    }
    Ok(out)
}

/// Relies on the JSON crate deserializing one string: it succeeds
/// exactly when the raw text is one JSON string literal, and yields
/// the text that literal denotes.
#[verifier::external_body]
fn json_decode_string(raw: &str) -> (r: Result<String, Error>)
    ensures
        r matches Ok(s) ==> json_str_of(raw@) == Some(s@),
        r is Err <==> json_str_of(raw@) is None,
        r matches Err(e) ==> e == Error::JsonError,
{
    serde_json::from_str(raw).map_err(|_| Error::JsonError)
}

/// What parsing a `DD.MM.YYYY` date field yields: the default for an
/// empty field, the checked date otherwise.  Components past the third
/// are ignored, as the splitting parser does.
pub open spec fn spec_parse_date(b: Seq<u8>) -> Result<Option<Date>, Error> {
    if b.len() == 0 {
        Ok(None)
    } else {
        match first_byte_from(b, 46u8, 0) {
            None => Err(Error::BadDate),
            Some(i1) => match first_byte_from(b, 46u8, i1 + 1) {
                None => Err(Error::BadDate),
                Some(i2) => {
                    let yend = match first_byte_from(b, 46u8, i2 + 1) {
                        Some(i3) => i3,
                        None => b.len() as int,
                    };
                    let day = spec_parse_uint(b.subrange(0, i1), u32::MAX as int);
                    let month = spec_parse_uint(b.subrange(i1 + 1, i2), u32::MAX as int);
                    let year = spec_parse_int(b.subrange(i2 + 1, yend), i32::MIN as int, i32::MAX as int);
                    if day is None || month is None || year is None {
                        Err(Error::BadDate)
                    } else {
                        let d = Date {
                            year: year->Some_0 as i32,
                            month: month->Some_0 as u32,
                            day: day->Some_0 as u32,
                        };
                        if valid_date(d) {
                            Ok(Some(d))
                        } else {
                            Err(Error::BadDate)
                        }
                    }
                },
            },
        }
    }
}

/// What parsing a `HH:MM:SS` time field yields: the default for an
/// empty field, the checked time otherwise.
pub open spec fn spec_parse_time(b: Seq<u8>) -> Result<Option<Time>, Error> {
    if b.len() == 0 {
        Ok(None)
    } else {
        match first_byte_from(b, 58u8, 0) {
            None => Err(Error::BadTime),
            Some(i1) => match first_byte_from(b, 58u8, i1 + 1) {
                None => Err(Error::BadTime),
                Some(i2) => {
                    let send = match first_byte_from(b, 58u8, i2 + 1) {
                        Some(i3) => i3,
                        None => b.len() as int,
                    };
                    let hour = spec_parse_uint(b.subrange(0, i1), u32::MAX as int);
                    let minute = spec_parse_uint(b.subrange(i1 + 1, i2), u32::MAX as int);
                    let second = spec_parse_uint(b.subrange(i2 + 1, send), u32::MAX as int);
                    if hour is None || minute is None || second is None {
                        Err(Error::BadTime)
                    } else {
                        let t = Time {
                            hour: hour->Some_0 as u32,
                            minute: minute->Some_0 as u32,
                            second: second->Some_0 as u32,
                        };
                        if valid_time(t) {
                            Ok(Some(t))
                        } else {
                            Err(Error::BadTime)
                        }
                    }
                },
            },
        }
    }
}

/// Parses a `DD.MM.YYYY` date field.
pub fn parse_date(field: &str) -> (r: Result<Option<Date>, Error>)
    ensures
        match r {
            Ok(o) => spec_parse_date(field.spec_bytes()) == Ok::<Option<Date>, Error>(o),
            Err(e) => spec_parse_date(field.spec_bytes()) == Err::<Option<Date>, Error>(e),
        },
{
    let b = field.as_bytes();
    if b.len() == 0 {
        return Ok(None);
    }
    let i1 = match scan_byte_from(b, 46, 0) {
        Some(i) => i,
        None => return Err(Error::BadDate),
    };
    let i2 = match scan_byte_from(b, 46, i1 + 1) {
        Some(i) => i,
        None => return Err(Error::BadDate),
    };
    let yend = match scan_byte_from(b, 46, i2 + 1) {
        Some(i) => i,
        None => b.len(),
    };
    let day = parse_uint(b, 0, i1, u32::MAX as u64);
    let month = parse_uint(b, i1 + 1, i2, u32::MAX as u64);
    let year = parse_int(b, i2 + 1, yend, i32::MIN as i64, i32::MAX as i64);
    let (day, month, year) = match (day, month, year) {
        (Some(d), Some(m), Some(y)) => (d, m, y),
        _ => return Err(Error::BadDate),
    };
    let d = Date { year: year as i32, month: month as u32, day: day as u32 };
    if d.is_valid() {
        Ok(Some(d))
    } else {
        Err(Error::BadDate)
    }
}

/// Parses a `HH:MM:SS` time field.
pub fn parse_time(field: &str) -> (r: Result<Option<Time>, Error>)
    ensures
        match r {
            Ok(o) => spec_parse_time(field.spec_bytes()) == Ok::<Option<Time>, Error>(o),
            Err(e) => spec_parse_time(field.spec_bytes()) == Err::<Option<Time>, Error>(e),
        },
{
    let b = field.as_bytes();
    if b.len() == 0 {
        return Ok(None);
    }
    let i1 = match scan_byte_from(b, 58, 0) {
        Some(i) => i,
        None => return Err(Error::BadTime),
    };
    let i2 = match scan_byte_from(b, 58, i1 + 1) {
        Some(i) => i,
        None => return Err(Error::BadTime),
    };
    let send = match scan_byte_from(b, 58, i2 + 1) {
        Some(i) => i,
        None => b.len(),
    };
    let hour = parse_uint(b, 0, i1, u32::MAX as u64);
    let minute = parse_uint(b, i1 + 1, i2, u32::MAX as u64);
    let second = parse_uint(b, i2 + 1, send, u32::MAX as u64);
    let (hour, minute, second) = match (hour, minute, second) {
        (Some(h), Some(m), Some(s)) => (h, m, s),
        _ => return Err(Error::BadTime),
    };
    let t = Time { hour: hour as u32, minute: minute as u32, second: second as u32 };
    if t.is_valid() {
        Ok(Some(t))
    } else {
        Err(Error::BadTime)
    }
}

/// What resolving a URL suffix field against the base URL yields.  An
/// empty field means no URL; a field with a pipe replaces the digits
/// and the pipe by that many leading bytes of the base URL; any other
/// field is appended to the base URL.
pub open spec fn spec_url_suffix(url: Seq<char>, field: Seq<char>) -> Result<
    Option<Seq<char>>,
    Error,
> {
    let ub = encode_utf8(url);
    let fb = encode_utf8(field);
    if fb.len() == 0 {
        Ok(None)
    } else {
        match first_byte_from(fb, 124u8, 0) {
            None => Ok(Some(url + field)),
            Some(pos) => {
                match spec_parse_uint(fb.subrange(0, pos), usize::MAX as int) {
                    None => Err(Error::BadUrlSuffix),
                    Some(n) => {
                        if !is_char_boundary(ub, n) || !is_char_boundary(fb, pos + 1) {
                            Err(Error::BadUrlSuffix)
                        } else {
                            Ok(
                                Some(
                                    decode_utf8(ub.subrange(0, n)) + decode_utf8(
                                        fb.subrange(pos + 1, fb.len() as int),
                                    ),
                                ),
                            )
                        }
                    },
                }
            },
        }
    }
}

/// Resolves a URL suffix field against the base URL.
pub fn parse_url_suffix(url: &str, field: String) -> (r: Result<Option<String>, Error>)
    ensures
        match r {
            Ok(Some(s)) => spec_url_suffix(url@, field@) == Ok::<Option<Seq<char>>, Error>(
                Some(s@),
            ),
            Ok(None) => spec_url_suffix(url@, field@) == Ok::<Option<Seq<char>>, Error>(
                None::<Seq<char>>,
            ),
            Err(e) => spec_url_suffix(url@, field@) == Err::<Option<Seq<char>>, Error>(e),
        },
{
    let fs = field.as_str();
    let fb = fs.as_bytes();
    if fb.len() == 0 {
        return Ok(None);
    }
    match scan_byte_from(fb, 124, 0) {
        None => {
            let mut out = url.to_owned();
            out.append(fs);
            Ok(Some(out))
        },
        Some(pos) => {
            let n = match parse_uint(fb, 0, pos, usize::MAX as u64) {
                Some(n) => n as usize,
                None => return Err(Error::BadUrlSuffix),
            };
            if !url.is_char_boundary(n) || !fs.is_char_boundary(pos + 1) {
                return Err(Error::BadUrlSuffix);
            }
            let (head, _) = url.split_at(n);
            let (_, tail) = fs.split_at(pos + 1);
            proof {
                vstd::utf8::encode_utf8_decode_utf8(head@);
                vstd::utf8::encode_utf8_decode_utf8(tail@);
            }
            let mut out = head.to_owned();
            out.append(tail);
            Ok(Some(out))
        },
    }
}

pub open spec fn date_or_default(o: Option<Date>) -> Date {
    match o {
        Some(d) => d,
        None => Date { year: 1, month: 1, day: 1 },
    }
}

pub open spec fn time_or_default(o: Option<Time>) -> Time {
    match o {
        Some(t) => t,
        None => Time { hour: 0, minute: 0, second: 0 },
    }
}

/// What decoding one record region (the bytes from `[` to `]`) yields:
/// the channel, topic, title, date, time, duration, description,
/// website and URL fields of the twenty-value tuple, with documented
/// defaults for empty date and time fields and the two derived URLs.
/// Opaque so that framing proofs need not look inside; `parse_fields`
/// reveals it.
#[verifier::opaque]
pub open spec fn spec_decode_fields(b: Seq<u8>) -> Result<ItemModel, Error> {
    let ro = json_raw20_of(b);
    if ro is None {
        Err(Error::JsonError)
    } else {
        let raws = ro->Some_0;
        let channel = json_str_of(raws[0]);
        let topic = json_str_of(raws[1]);
        let title = json_str_of(raws[2]);
        let date_f = json_str_of(raws[3]);
        if channel is None {
            Err(Error::JsonError)
        } else if topic is None {
            Err(Error::JsonError)
        } else if title is None {
            Err(Error::JsonError)
        } else if date_f is None {
            Err(Error::JsonError)
        } else if spec_parse_date(encode_utf8(date_f->Some_0)) is Err {
            Err(spec_parse_date(encode_utf8(date_f->Some_0))->Err_0)
        } else {
            let date = date_or_default(spec_parse_date(encode_utf8(date_f->Some_0))->Ok_0);
            let time_f = json_str_of(raws[4]);
            if time_f is None {
                Err(Error::JsonError)
            } else if spec_parse_time(encode_utf8(time_f->Some_0)) is Err {
                Err(spec_parse_time(encode_utf8(time_f->Some_0))->Err_0)
            } else {
                let time = time_or_default(spec_parse_time(encode_utf8(time_f->Some_0))->Ok_0);
                let dur_f = json_str_of(raws[5]);
                if dur_f is None {
                    Err(Error::JsonError)
                } else if spec_parse_time(encode_utf8(dur_f->Some_0)) is Err {
                    Err(spec_parse_time(encode_utf8(dur_f->Some_0))->Err_0)
                } else {
                    let duration = time_or_default(
                        spec_parse_time(encode_utf8(dur_f->Some_0))->Ok_0,
                    );
                    let description = json_str_of(raws[7]);
                    if description is None {
                        Err(Error::JsonError)
                    } else {
                        let website = json_str_of(raws[9]);
                        if website is None {
                            Err(Error::JsonError)
                        } else {
                            let url = json_str_of(raws[8]);
                            if url is None {
                                Err(Error::JsonError)
                            } else {
                                let f12 = json_str_of(raws[12]);
                                if f12 is None {
                                    Err(Error::JsonError)
                                } else if spec_url_suffix(url->Some_0, f12->Some_0) is Err {
                                    Err(spec_url_suffix(url->Some_0, f12->Some_0)->Err_0)
                                } else {
                                    let url_small = spec_url_suffix(
                                        url->Some_0,
                                        f12->Some_0,
                                    )->Ok_0;
                                    let f14 = json_str_of(raws[14]);
                                    if f14 is None {
                                        Err(Error::JsonError)
                                    } else if spec_url_suffix(url->Some_0, f14->Some_0) is Err {
                                        Err(spec_url_suffix(url->Some_0, f14->Some_0)->Err_0)
                                    } else {
                                        let url_large = spec_url_suffix(
                                            url->Some_0,
                                            f14->Some_0,
                                        )->Ok_0;
                                        Ok(
                                            ItemModel {
                                                channel: channel->Some_0,
                                                topic: topic->Some_0,
                                                title: title->Some_0,
                                                date,
                                                time,
                                                duration,
                                                description: description->Some_0,
                                                website: website->Some_0,
                                                url: url->Some_0,
                                                url_small,
                                                url_large,
                                            },
                                        )
                                    }
                                }
                            }
                        }
                    }
                }
            }
        }
    }
}

/// Decodes one record region into an `Item`.
fn parse_fields(bytes: &Vec<u8>) -> (r: Result<Item, Error>)
    ensures
        match r {
            Ok(item) => spec_decode_fields(bytes@) == Ok::<ItemModel, Error>(item@)
                && crate::item::item_wf(item@),
            Err(e) => spec_decode_fields(bytes@) == Err::<ItemModel, Error>(e),
        },
{
    proof {
        reveal(spec_decode_fields);
    }
    let raws = match json_split_record(bytes) {
        Ok(v) => v,
        Err(e) => return Err(e),
    };
    let channel = match json_decode_string(raws[0].as_str()) {
        Ok(s) => s,
        Err(e) => return Err(e),
    };
    let topic = match json_decode_string(raws[1].as_str()) {
        Ok(s) => s,
        Err(e) => return Err(e),
    };
    let title = match json_decode_string(raws[2].as_str()) {
        Ok(s) => s,
        Err(e) => return Err(e),
    };
    let date_f = match json_decode_string(raws[3].as_str()) {
        Ok(s) => s,
        Err(e) => return Err(e),
    };
    let date = match parse_date(date_f.as_str()) {
        Ok(Some(d)) => d,
        Ok(None) => Date::first(),
        Err(e) => return Err(e),
    };
    let time_f = match json_decode_string(raws[4].as_str()) {
        Ok(s) => s,
        Err(e) => return Err(e),
    };
    let time = match parse_time(time_f.as_str()) {
        Ok(Some(t)) => t,
        Ok(None) => Time::midnight(),
        Err(e) => return Err(e),
    };
    let dur_f = match json_decode_string(raws[5].as_str()) {
        Ok(s) => s,
        Err(e) => return Err(e),
    };
    let duration = match parse_time(dur_f.as_str()) {
        Ok(Some(t)) => t,
        Ok(None) => Time::midnight(),
        Err(e) => return Err(e),
    };
    let description = match json_decode_string(raws[7].as_str()) {
        Ok(s) => s,
        Err(e) => return Err(e),
    };
    let website = match json_decode_string(raws[9].as_str()) {
        Ok(s) => s,
        Err(e) => return Err(e),
    };
    let url = match json_decode_string(raws[8].as_str()) {
        Ok(s) => s,
        Err(e) => return Err(e),
    };
    let f12 = match json_decode_string(raws[12].as_str()) {
        Ok(s) => s,
        Err(e) => return Err(e),
    };
    let url_small = match parse_url_suffix(url.as_str(), f12) {
        Ok(o) => o,
        Err(e) => return Err(e),
    };
    let f14 = match json_decode_string(raws[14].as_str()) {
        Ok(s) => s,
        Err(e) => return Err(e),
    };
    let url_large = match parse_url_suffix(url.as_str(), f14) {
        Ok(o) => o,
        Err(e) => return Err(e),
    };
    Ok(
        Item {
            channel,
            topic,
            title,
            date,
            time,
            duration,
            description,
            website,
            url,
            url_small,
            url_large,
        },
    )
}

/// What scanning for the header yields on the unconsumed buffer: the
/// number of bytes to consume once the closing delimiter is in view,
/// nothing while it is not, and an error when the buffer does not open
/// with the header delimiter.
pub open spec fn spec_parse_header(b: Seq<u8>) -> Result<Option<int>, Error> {
    if b.len() < hdr_prefix().len() + rec_suffix().len() {
        Ok(None)
    } else if b.subrange(0, hdr_prefix().len() as int) != hdr_prefix() {
        Err(Error::MalformedHeader)
    } else {
        match first_match_from(b, rec_suffix(), hdr_prefix().len() as int) {
            Some(p) => Ok(Some(p + 2)),
            None => Ok(None),
        }
    }
}

/// Occurrences in a suffix of the buffer are occurrences in the buffer,
/// shifted.
proof fn match_at_skip(h: Seq<u8>, n: Seq<u8>, start: int, j: int)
    requires
        0 <= start <= h.len(),
        0 <= j,
    ensures
        match_at(h.skip(start), n, j) <==> match_at(h, n, start + j),
{
    let h2 = h.skip(start);
    if j + n.len() <= h2.len() {
        assert(h2.subrange(j, j + n.len()) =~= h.subrange(start + j, start + j + n.len()));
    }
}

/// The first match in a suffix of the buffer is the first match in the
/// buffer, shifted.
proof fn first_match_skip(h: Seq<u8>, n: Seq<u8>, start: int, from: int)
    requires
        0 <= start <= h.len(),
        0 <= from,
    ensures
        match first_match_from(h, n, start + from) {
            Some(i) => first_match_from(h.skip(start), n, from) == Some(i - start),
            None => first_match_from(h.skip(start), n, from) is None,
        },
{
    let h2 = h.skip(start);
    first_match_from_is_least(h, n, start + from);
    first_match_from_is_least(h2, n, from);
    assert forall|j: int| 0 <= j implies (match_at(h2, n, j) <==> match_at(
        h,
        n,
        start + j,
    )) by {
        match_at_skip(h, n, start, j);
    }
    match first_match_from(h, n, start + from) {
        Some(i) => {
            assert(match_at(h2, n, i - start));
            match first_match_from(h2, n, from) {
                Some(k) => {
                    if k < i - start {
                        assert(match_at(h, n, start + k));
                        assert(false);
                    }
                    if k > i - start {
                        assert(false);
                    }
                },
                None => {
                    assert(false);
                },
            }
        },
        None => {
            match first_match_from(h2, n, from) {
                Some(k) => {
                    assert(match_at(h, n, start + k));
                    assert(false);
                },
                None => {},
            }
        },
    }
}

/// Scans for the header in `buf[start..]`.
fn parse_header(buf: &[u8], start: usize) -> (r: Result<Option<usize>, Error>)
    requires
        start <= buf@.len(),
    ensures
        match r {
            Ok(Some(n)) => spec_parse_header(buf@.skip(start as int)) == Ok::<Option<int>, Error>(
                Some(n as int),
            ) && start + n <= buf@.len(),
            Ok(None) => spec_parse_header(buf@.skip(start as int)) == Ok::<Option<int>, Error>(
                None::<int>,
            ),
            Err(e) => spec_parse_header(buf@.skip(start as int)) == Err::<Option<int>, Error>(e),
        },
{
    let ghost b = buf@.skip(start as int);
    if buf.len() - start < 21 {
        return Ok(None);
    }
    let prefix = hdr_prefix_bytes();
    if !starts_with_at(buf, start, &prefix) {
        proof {
            assert(b.subrange(0, 14) =~= buf@.subrange(start as int, start as int + 14));
        }
        return Err(Error::MalformedHeader);
    }
    proof {
        assert(b.subrange(0, 14) =~= buf@.subrange(start as int, start as int + 14));
    }
    let suffix = rec_suffix_bytes();
    match find_from(buf, start + 14, &suffix) {
        Some(p) => {
            proof {
                first_match_skip(buf@, rec_suffix(), start as int, 14);
            }
            Ok(Some(p - start + 2))
        },
        None => {
            proof {
                first_match_skip(buf@, rec_suffix(), start as int, 14);
            }
            Ok(None)
        },
    }
}

/// What scanning for one record yields on the unconsumed buffer: the
/// bytes to consume and the decoded record once the closing delimiter
/// is in view, nothing while it is not, and an error when the buffer
/// does not open with a record delimiter or the record does not decode.
pub open spec fn spec_parse_item(b: Seq<u8>) -> Result<Option<(int, ItemModel)>, Error> {
    if b.len() < item_prefix().len() + rec_suffix().len() {
        Ok(None)
    } else if b.subrange(0, 5) != item_prefix() {
        Err(Error::MalformedItem)
    } else {
        match first_match_from(b, rec_suffix(), 5) {
            None => Ok(None),
            Some(p) => match spec_decode_fields(b.subrange(4, p + 1)) {
                Ok(m) => Ok(Some((p + 2, m))),
                Err(e) => Err(e),
            },
        }
    }
}

/// Scans for one record in `buf[start..]`.
#[verifier::rlimit(60)]
fn parse_item(buf: &[u8], start: usize) -> (r: Result<Option<(usize, Item)>, Error>)
    requires
        start <= buf@.len(),
    ensures
        match r {
            Ok(Some((n, item))) => spec_parse_item(buf@.skip(start as int)) matches Ok(o)
                && o matches Some(p) && p.0 == n as int && p.1 == item@ && crate::item::item_wf(
                item@,
            ) && 7 <= n && start + n <= buf@.len(),
            Ok(None) => spec_parse_item(buf@.skip(start as int)) == Ok::<
                Option<(int, ItemModel)>,
                Error,
            >(None::<(int, ItemModel)>),
            Err(e) => spec_parse_item(buf@.skip(start as int)) == Err::<
                Option<(int, ItemModel)>,
                Error,
            >(e),
        },
{
    let ghost b = buf@.skip(start as int);
    if buf.len() - start < 12 {
        return Ok(None);
    }
    let prefix = item_prefix_bytes();
    if !starts_with_at(buf, start, &prefix) {
        proof {
            assert(b.subrange(0, 5) =~= buf@.subrange(start as int, start as int + 5));
        }
        return Err(Error::MalformedItem);
    }
    proof {
        assert(b.subrange(0, 5) =~= buf@.subrange(start as int, start as int + 5));
    }
    let suffix = rec_suffix_bytes();
    let p = match find_from(buf, start + 5, &suffix) {
        Some(p_abs) => {
            proof {
                first_match_skip(buf@, rec_suffix(), start as int, 5);
            }
            p_abs - start
        },
        None => {
            proof {
                first_match_skip(buf@, rec_suffix(), start as int, 5);
            }
            return Ok(None);
        },
    };
    let region = copy_range(buf, start + 4, start + p + 1);
    proof {
        assert(region@ =~= b.subrange(4, p as int + 1));
    }
    match parse_fields(&region) {
        Ok(item) => Ok(Some((p + 2, item))),
        Err(e) => Err(e),
    }
}

/// What decoding the final record at the end of the stream yields: the
/// buffer must open with a record delimiter and close the payload.
pub open spec fn spec_parse_last_item(b: Seq<u8>) -> Result<ItemModel, Error> {
    if b.len() < item_prefix().len() + last_suffix().len() {
        Err(Error::MalformedLastItem)
    } else if b.subrange(0, 5) != item_prefix() {
        Err(Error::MalformedLastItem)
    } else if b.subrange(b.len() - 2, b.len() as int) != last_suffix() {
        Err(Error::MalformedLastItem)
    } else {
        spec_decode_fields(b.subrange(4, b.len() - 1))
    }
}

/// Decodes the final record in `buf[start..]`.
#[verifier::rlimit(60)]
fn parse_last_item(buf: &[u8], start: usize) -> (r: Result<Item, Error>)
    requires
        start <= buf@.len(),
    ensures
        match r {
            Ok(item) => spec_parse_last_item(buf@.skip(start as int)) == Ok::<ItemModel, Error>(
                item@,
            ) && crate::item::item_wf(item@),
            Err(e) => spec_parse_last_item(buf@.skip(start as int)) == Err::<ItemModel, Error>(e),
        },
{
    let ghost b = buf@.skip(start as int);
    if buf.len() - start < 7 {
        return Err(Error::MalformedLastItem);
    }
    let prefix = item_prefix_bytes();
    if !starts_with_at(buf, start, &prefix) {
        proof {
            assert(b.subrange(0, 5) =~= buf@.subrange(start as int, start as int + 5));
        }
        return Err(Error::MalformedLastItem);
    }
    proof {
        assert(b.subrange(0, 5) =~= buf@.subrange(start as int, start as int + 5));
    }
    if buf[buf.len() - 2] != 93 || buf[buf.len() - 1] != 125 {
        proof {
            let tail = b.subrange(b.len() - 2, b.len() as int);
            assert(tail[0] == buf@[buf@.len() - 2]);
            assert(tail[1] == buf@[buf@.len() - 1]);
        }
        return Err(Error::MalformedLastItem);
    }
    proof {
        assert(b.subrange(b.len() - 2, b.len() as int) =~= last_suffix());
    }
    let region = copy_range(buf, start + 4, buf.len() - 1);
    proof {
        assert(region@ =~= b.subrange(4, b.len() - 1));
    }
    parse_fields(&region)
}

/// Discards the consumed prefix of the buffer and appends the next
/// chunk of input.  Returns whether the chunk held any bytes.
pub fn fill_buf(buf: &mut Vec<u8>, pos: &mut usize, chunk: &[u8]) -> (r: bool)
    requires
        *old(pos) <= old(buf)@.len(),
    ensures
        final(buf)@ == old(buf)@.subrange(*old(pos) as int, old(buf)@.len() as int) + chunk@,
        *final(pos) == 0,
        r == (chunk@.len() > 0),
{
    let total = buf.len();
    let len = total - *pos;
    let p = *pos;
    let mut i: usize = 0;
    while i < len
        invariant
            total == buf@.len(),
            p + len == buf@.len(),
            p <= buf@.len(),
            buf@.len() == old(buf)@.len(),
            i <= len,
            forall|j: int| 0 <= j < i ==> buf@[j] == old(buf)@[p + j],
            forall|j: int| p <= j < buf@.len() && j >= i ==> buf@[j] == old(buf)@[j],
        decreases len - i,
    {
        let v = buf[p + i];
        proof {
            assert(p + i >= i);
        }
        buf.set(i, v);
        i = i + 1;
    }
    buf.truncate(len);
    proof {
        assert(buf@ =~= old(buf)@.subrange(p as int, old(buf)@.len() as int));
    }
    crate::compressor::push_bytes(buf, chunk);
    *pos = 0;
    chunk.len() > 0
}

/// A record decodable from some record region.
pub open spec fn item_decodes(m: ItemModel) -> bool {
    exists|rec: Seq<u8>| spec_decode_fields(rec) == Ok::<ItemModel, Error>(m)
}

/// Greedily takes complete records off the head of `b`: the bytes
/// consumed, the records they decode to in order, and the error that
/// stopped the scan, if one did.  The bounds guard on the consumed
/// length only serves the recursion measure; a record always spans at
/// least its delimiters.
pub open spec fn spec_take_records(b: Seq<u8>) -> (int, Seq<ItemModel>, Option<Error>)
    decreases b.len(),
{
    match spec_parse_item(b) {
        Err(e) => (0, Seq::<ItemModel>::empty(), Some(e)),
        Ok(None) => (0, Seq::<ItemModel>::empty(), None::<Error>),
        Ok(Some(p)) => {
            if p.0 < 1 || p.0 > b.len() {
                (0, Seq::<ItemModel>::empty(), None::<Error>)
            } else {
                let rest = spec_take_records(b.skip(p.0));
                (p.0 + rest.0, seq![p.1] + rest.1, rest.2)
            }
        },
    }
}

/// What parsing one whole payload yields: the header is consumed, then
/// every inner record, then the final record closing the payload.
pub open spec fn spec_parse_stream(data: Seq<u8>) -> Result<Seq<ItemModel>, Error> {
    match spec_parse_header(data) {
        Err(e) => Err(e),
        Ok(None) => Err(Error::UnexpectedEnd),
        Ok(Some(n)) => {
            let t = spec_take_records(data.skip(n));
            match t.2 {
                Some(e) => Err(e),
                None => match spec_parse_last_item(data.skip(n).skip(t.0)) {
                    Ok(m) => Ok(t.1.push(m)),
                    Err(e) => Err(e),
                },
            }
        },
    }
}


/// Taking records off a buffer that opens with one record takes that
/// record and then the rest.
proof fn lemma_take_unfold(cur: Seq<u8>, n: int, m: ItemModel)
    requires
        spec_parse_item(cur) == Ok::<Option<(int, ItemModel)>, Error>(Some((n, m))),
        1 <= n <= cur.len(),
    ensures
        spec_take_records(cur).0 == n + spec_take_records(cur.skip(n)).0,
        spec_take_records(cur).1 =~= seq![m] + spec_take_records(cur.skip(n)).1,
        spec_take_records(cur).2 == spec_take_records(cur.skip(n)).2,
{
}

/// The incremental parser: a growing buffer of unconsumed input, fed
/// chunk by chunk.
pub struct StreamParser {
    buf: Vec<u8>,
    pos: usize,
    header_done: bool,
}

/// One feeding step over the buffered bytes `b` after the header: the
/// complete records of `b` were appended to the output in order; the
/// scan's error, if any, is the result, and otherwise the unconsumed
/// tail is kept.
pub open spec fn feed_step(
    b: Seq<u8>,
    r: Result<(), Error>,
    out0: Seq<Item>,
    out1: Seq<Item>,
    p: StreamParser,
) -> bool {
    let t = spec_take_records(b);
    &&& out1.len() == out0.len() + t.1.len()
    &&& forall|k: int| 0 <= k < t.1.len() ==> (#[trigger] out1[out0.len() + k])@ == t.1[k]
    &&& match t.2 {
        Some(e) => r == Err::<(), Error>(e),
        None => r is Ok && p.header_seen() && p.leftover() == b.skip(t.0),
    }
}

impl StreamParser {
    pub closed spec fn wf(&self) -> bool {
        self.pos <= self.buf@.len()
    }

    /// Whether the header has been consumed.
    pub closed spec fn header_seen(&self) -> bool {
        self.header_done
    }

    /// The buffered bytes not yet consumed.
    pub closed spec fn leftover(&self) -> Seq<u8> {
        self.buf@.skip(self.pos as int)
    }

    pub fn new() -> (r: StreamParser)
        ensures
            r.wf(),
            !r.header_seen(),
            r.leftover() == Seq::<u8>::empty(),
    {
        let r = StreamParser { buf: Vec::new(), pos: 0, header_done: false };
        proof {
            assert(r.buf@.skip(0) =~= Seq::<u8>::empty());
        }
        r
    }

    /// Feeds one chunk of input: consumes the header once its closing
    /// delimiter is in view, then appends every record that is now
    /// complete, in stream order.  Fails exactly where scanning the
    /// buffered bytes fails.
    #[verifier::rlimit(100)]
    pub fn feed(&mut self, chunk: &[u8], out: &mut Vec<Item>) -> (r: Result<(), Error>)
        requires
            old(self).wf(),
        ensures
            final(self).wf(),
            final(out)@.len() >= old(out)@.len(),
            forall|k: int| 0 <= k < old(out)@.len() ==> final(out)@[k] == old(out)@[k],
            forall|k: int|
                old(out)@.len() <= k < final(out)@.len() ==> item_decodes(
                    #[trigger] final(out)@[k]@,
                ) && crate::item::item_wf(final(out)@[k]@),
            ({
                let b = old(self).leftover() + chunk@;
                &&& (!old(self).header_seen() ==> match spec_parse_header(b) {
                    Err(e) => r == Err::<(), Error>(e) && final(out)@ == old(out)@,
                    Ok(None) => r is Ok && final(out)@ == old(out)@
                        && !final(self).header_seen() && final(self).leftover() == b,
                    Ok(Some(n)) => feed_step(b.skip(n), r, old(out)@, final(out)@, *final(self)),
                })
                &&& (old(self).header_seen() ==> feed_step(
                    b,
                    r,
                    old(out)@,
                    final(out)@,
                    *final(self),
                ))
            }),
    {
        let ghost b = old(self).leftover() + chunk@;
        fill_buf(&mut self.buf, &mut self.pos, chunk);
        proof {
            assert(self.buf@ == b);
            assert(self.buf@.skip(0) =~= b);
        }
        if !self.header_done {
            match parse_header(self.buf.as_slice(), self.pos) {
                Ok(Some(n)) => {
                    self.pos = self.pos + n;
                    self.header_done = true;
                },
                Ok(None) => {
                    return Ok(());
                },
                Err(e) => {
                    return Err(e);
                },
            }
        }
        let ghost bh = self.buf@.skip(self.pos as int);
        let ghost t_all = spec_take_records(bh);
        let ghost out0 = out@;
        let ghost ph0 = self.pos as int;
        let ghost mut appended = Seq::<ItemModel>::empty();
        proof {
            assert(t_all.1 =~= appended + spec_take_records(b.skip(self.pos as int)).1);
        }
        loop
            invariant
                self.header_done,
                0 <= ph0 <= self.pos <= self.buf@.len(),
                self.buf@ == b,
                t_all == spec_take_records(bh),
                bh == b.skip(ph0),
                b == old(self).leftover() + chunk@,
                !old(self).header_seen() ==> spec_parse_header(b) == Ok::<Option<int>, Error>(
                    Some(ph0),
                ),
                old(self).header_seen() ==> ph0 == 0,
                t_all.1 == appended + spec_take_records(b.skip(self.pos as int)).1,
                t_all.2 == spec_take_records(b.skip(self.pos as int)).2,
                t_all.0 == (self.pos - ph0) + spec_take_records(b.skip(self.pos as int)).0,
                out@.len() == out0.len() + appended.len(),
                out0 == old(out)@,
                forall|k: int| 0 <= k < out0.len() ==> out@[k] == out0[k],
                forall|k: int|
                    0 <= k < appended.len() ==> (#[trigger] out@[out0.len() + k])@ == appended[k],
                forall|k: int|
                    out0.len() <= k < out@.len() ==> item_decodes(#[trigger] out@[k]@)
                        && crate::item::item_wf(out@[k]@),
            decreases self.buf@.len() - self.pos,
        {
            let total = self.buf.len();
            let ghost cur = b.skip(self.pos as int);
            let ghost t_cur = spec_take_records(cur);
            match parse_item(self.buf.as_slice(), self.pos) {
                Ok(Some((n, item))) => {
                    proof {
                        let p = first_match_from(cur, rec_suffix(), 5)->Some_0;
                        assert(spec_decode_fields(cur.subrange(4, p + 1)) == Ok::<
                            ItemModel,
                            Error,
                        >(item@));
                        lemma_take_unfold(cur, n as int, item@);
                        assert(cur.skip(n as int) =~= b.skip(self.pos + n));
                    }
                    self.pos = self.pos + n;
                    out.push(item);
                    proof {
                        let t_cur2 = spec_take_records(b.skip(self.pos as int));
                        assert(appended + t_cur.1 =~= appended.push(item@) + t_cur2.1);
                        appended = appended.push(item@);
                    }
                },
                Ok(None) => {
                    proof {
                        assert(spec_take_records(cur).0 == 0 && spec_take_records(cur).1
                            =~= Seq::<ItemModel>::empty() && spec_take_records(cur).2
                            is None);
                        assert(t_all.1 =~= appended);
                        assert(t_all.0 == self.pos - ph0);
                        assert(bh.skip(t_all.0) =~= cur) by {
                            assert(0 <= t_all.0);
                            assert(bh.len() == b.len() - ph0);
                            assert(t_all.0 <= bh.len());
                            assert(cur.len() == b.len() - self.pos);
                            assert(bh.skip(t_all.0).len() == cur.len());
                            assert forall|j: int| 0 <= j < cur.len() implies bh.skip(
                                self.pos - ph0,
                            )[j] == cur[j] by {
                                assert(bh.skip(self.pos - ph0)[j] == bh[self.pos - ph0 + j]);
                                assert(bh[self.pos - ph0 + j] == b[self.pos + j]);
                                assert(cur[j] == b[self.pos + j]);
                            }
                        }
                        assert(feed_step(bh, Ok::<(), Error>(()), out0, out@, *self));
                        if old(self).header_seen() {
                            assert(bh =~= b);
                        }
                    }
                    return Ok(());
                },
                Err(e) => {
                    proof {
                        assert(spec_take_records(cur).1 =~= Seq::<ItemModel>::empty()
                            && spec_take_records(cur).2 == Some(e));
                        assert(t_all.1 =~= appended);
                        assert(feed_step(bh, Err::<(), Error>(e), out0, out@, *self));
                        if old(self).header_seen() {
                            assert(bh =~= b);
                        }
                    }
                    return Err(e);
                },
            }
        }
    }

    /// Ends the stream: without a consumed header the input ended too
    /// early; otherwise the remaining buffer must hold exactly the
    /// final record, which is appended.
    pub fn finish(&mut self, out: &mut Vec<Item>) -> (r: Result<(), Error>)
        requires
            old(self).wf(),
        ensures
            final(self).wf(),
            final(out)@.len() >= old(out)@.len(),
            forall|k: int| 0 <= k < old(out)@.len() ==> final(out)@[k] == old(out)@[k],
            forall|k: int|
                old(out)@.len() <= k < final(out)@.len() ==> item_decodes(
                    #[trigger] final(out)@[k]@,
                ) && crate::item::item_wf(final(out)@[k]@),
            !old(self).header_seen() ==> r == Err::<(), Error>(Error::UnexpectedEnd)
                && final(out)@ == old(out)@,
            old(self).header_seen() ==> match spec_parse_last_item(old(self).leftover()) {
                Ok(m) => r is Ok && final(out)@.len() == old(out)@.len() + 1
                    && (final(out)@[old(out)@.len() as int])@ == m,
                Err(e) => r == Err::<(), Error>(e) && final(out)@ == old(out)@,
            },
    {
        if !self.header_done {
            return Err(Error::UnexpectedEnd);
        }
        match parse_last_item(self.buf.as_slice(), self.pos) {
            Ok(item) => {
                proof {
                    let b = self.buf@.skip(self.pos as int);
                    assert(spec_parse_last_item(b) == Ok::<ItemModel, Error>(item@));
                    assert(spec_decode_fields(b.subrange(4, b.len() - 1)) == Ok::<
                        ItemModel,
                        Error,
                    >(item@));
                }
                out.push(item);
                Ok(())
            },
            Err(e) => Err(e),
        }
    }
}

/// Parses a complete payload held in memory and appends every record
/// to `out`, in stream order: exactly the records the framing grammar
/// gives for these bytes, or the grammar's error.
pub fn parse(data: &[u8], out: &mut Vec<Item>) -> (r: Result<(), Error>)
    ensures
        final(out)@.len() >= old(out)@.len(),
        forall|k: int| 0 <= k < old(out)@.len() ==> final(out)@[k] == old(out)@[k],
        forall|k: int|
            old(out)@.len() <= k < final(out)@.len() ==> item_decodes(#[trigger] final(out)@[k]@)
                && crate::item::item_wf(final(out)@[k]@),
        r is Ok ==> (spec_parse_stream(data@) matches Ok(ms) && final(out)@.len() == old(
            out,
        )@.len() + ms.len() && (forall|k: int|
            0 <= k < ms.len() ==> (#[trigger] final(out)@[old(out)@.len() + k])@ == ms[k])),
        r matches Err(e) ==> spec_parse_stream(data@) == Err::<Seq<ItemModel>, Error>(e),
        r is Err ==> (match spec_parse_header(data@) {
            Ok(Some(n)) => ({
                let t = spec_take_records(data@.skip(n));
                final(out)@.len() == old(out)@.len() + t.1.len() && (forall|k: int|
                    0 <= k < t.1.len() ==> (#[trigger] final(out)@[old(out)@.len() + k])@
                        == t.1[k])
            }),
            _ => final(out)@ == old(out)@,
        }),
{
    let mut parser = StreamParser::new();
    let ghost out0 = out@;
    proof {
        assert(Seq::<u8>::empty() + data@ =~= data@);
    }
    match parser.feed(data, out) {
        Ok(()) => {},
        Err(e) => {
            return Err(e);
        },
    }
    let ghost seen1 = parser.header_seen();
    let ghost left1 = parser.leftover();
    let ghost out1 = out@;
    let r = parser.finish(out);
    proof {
        if seen1 {
            let n = spec_parse_header(data@)->Ok_0->Some_0;
            let t = spec_take_records(data@.skip(n));
            assert(left1 == data@.skip(n).skip(t.0));
            if r is Ok {
                let m = spec_parse_last_item(left1)->Ok_0;
                assert(spec_parse_stream(data@) == Ok::<Seq<ItemModel>, Error>(t.1.push(m)));
                assert forall|k: int|
                    0 <= k < t.1.push(m).len() implies (#[trigger] out@[out0.len() + k])@ == t.1.push(
                    m,
                )[k] by {}
            }
        }
    }
    r
}

} // verus!
