//! Byte-level text utilities: substring search, null scanning and
//! decimal parsing.  The searches call the substring-search crates the
//! parser and the blob reader rely on; everything else is verified.

use vstd::prelude::*;

use crate::Error;

verus! {

/// `needle` occurs in `hay` at position `i`.
pub open spec fn match_at(hay: Seq<u8>, needle: Seq<u8>, i: int) -> bool {
    0 <= i && i + needle.len() <= hay.len() && hay.subrange(i, i + needle.len()) == needle
}

/// The position of the first occurrence of `needle` in `hay` at or
/// after `from`.
pub open spec fn first_match_from(hay: Seq<u8>, needle: Seq<u8>, from: int) -> Option<int>
    decreases hay.len() - from,
{
    if from < 0 || from + needle.len() > hay.len() {
        None
    } else if needle.len() == 0 {
        Some(from)
    } else if hay.subrange(from, from + needle.len()) == needle {
        Some(from)
    } else {
        first_match_from(hay, needle, from + 1)
    }
}

/// `first_match_from` finds exactly the least matching position.
pub proof fn first_match_from_is_least(hay: Seq<u8>, needle: Seq<u8>, from: int)
    requires
        from >= 0,
    ensures
        match first_match_from(hay, needle, from) {
            Some(i) => match_at(hay, needle, i) && from <= i && forall|j: int|
                from <= j < i ==> !match_at(hay, needle, j),
            None => forall|j: int| from <= j ==> !match_at(hay, needle, j),
        },
    decreases hay.len() - from,
{
    if from + needle.len() > hay.len() {
        assert forall|j: int| from <= j implies !match_at(hay, needle, j) by {}
    } else if needle.len() == 0 {
        assert(hay.subrange(from, from + needle.len()) =~= needle);
        assert(match_at(hay, needle, from));
    } else if hay.subrange(from, from + needle.len()) == needle {
    } else {
        first_match_from_is_least(hay, needle, from + 1);
        assert(!match_at(hay, needle, from));
    }
}

/// Relies on `memchr::memmem::find`: the returned position is the
/// first occurrence of the needle within the searched tail.
#[verifier::external_body]
pub fn find_from(hay: &[u8], from: usize, needle: &[u8]) -> (r: Option<usize>)
    requires
        from <= hay@.len(),
    ensures
        r matches Some(i) ==> from <= i && i + needle@.len() <= hay@.len() && Some(i as int)
            == first_match_from(hay@, needle@, from as int),
        r is None ==> first_match_from(hay@, needle@, from as int) is None,
{
    memchr::memmem::find(&hay[from..], needle).map(|p| from + p)
}

/// Relies on `twoway::find_bytes`: the returned position is the first
/// null byte within the searched tail.
#[verifier::external_body]
pub fn find_nul_from(hay: &[u8], from: usize) -> (r: Option<usize>)
    requires
        from <= hay@.len(),
    ensures
        r matches Some(i) ==> from <= i < hay@.len() && Some(i as int) == first_byte_from(
            hay@,
            0u8,
            from as int,
        ),
        r is None ==> first_byte_from(hay@, 0u8, from as int) is None,
{
    twoway::find_bytes(&hay[from..], &[0u8]).map(|p| from + p)
}

/// Whether two byte slices hold the same bytes.
pub fn eq_bytes(a: &[u8], b: &[u8]) -> (r: bool)
    ensures
        r <==> a@ == b@,
{
    if a.len() != b.len() {
        proof {
            assert(a@ != b@);
        }
        return false;
    }
    let mut i: usize = 0;
    while i < a.len()
        invariant
            a@.len() == b@.len(),
            i <= a@.len(),
            forall|j: int| 0 <= j < i ==> a@[j] == b@[j],
        decreases a@.len() - i,
    {
        if a[i] != b[i] {
            return false;
        }
        i = i + 1;
    }
    proof {
        assert(a@ =~= b@);
    }
    true
}

/// The position of the first occurrence of the byte `x` at or after
/// `from`.
pub open spec fn first_byte_from(s: Seq<u8>, x: u8, from: int) -> Option<int>
    decreases s.len() - from,
{
    if from < 0 || from >= s.len() {
        None
    } else if s[from] == x {
        Some(from)
    } else {
        first_byte_from(s, x, from + 1)
    }
}

pub proof fn first_byte_from_is_least(s: Seq<u8>, x: u8, from: int)
    requires
        from >= 0,
    ensures
        match first_byte_from(s, x, from) {
            Some(i) => from <= i < s.len() && s[i] == x && forall|j: int|
                from <= j < i ==> s[j] != x,
            None => forall|j: int| from <= j < s.len() ==> s[j] != x,
        },
    decreases s.len() - from,
{
    if from >= s.len() {
    } else if s[from] == x {
    } else {
        first_byte_from_is_least(s, x, from + 1);
    }
}

/// Finds the first occurrence of `x` in `s` at or after `from`.
pub fn scan_byte_from(s: &[u8], x: u8, from: usize) -> (r: Option<usize>)
    requires
        from <= s@.len(),
    ensures
        r matches Some(i) ==> from <= i < s@.len() && Some(i as int) == first_byte_from(
            s@,
            x,
            from as int,
        ),
        r is None ==> first_byte_from(s@, x, from as int) is None,
{
    let mut i: usize = from;
    while i < s.len()
        invariant
            from <= i <= s@.len(),
            forall|j: int| from <= j < i ==> s@[j] != x,
        decreases s@.len() - i,
    {
        if s[i] == x {
            proof {
                first_byte_from_is_least(s@, x, from as int);
            }
            return Some(i);
        }
        i = i + 1;
    }
    proof {
        first_byte_from_is_least(s@, x, from as int);
    }
    None
}

/// Copies `s[start..end]` into a fresh vector.
pub fn copy_range(s: &[u8], start: usize, end: usize) -> (r: Vec<u8>)
    requires
        start <= end <= s@.len(),
    ensures
        r@ == s@.subrange(start as int, end as int),
{
    let mut out: Vec<u8> = Vec::new();
    let mut i: usize = start;
    while i < end
        invariant
            start <= i <= end <= s@.len(),
            out@ == s@.subrange(start as int, i as int),
        decreases end - i,
    {
        out.push(s[i]);
        i = i + 1;
        assert(out@ =~= s@.subrange(start as int, i as int));
    }
    out
}

/// The numeric value of a sequence of decimal digit bytes.
pub open spec fn digits_value(s: Seq<u8>) -> int
    decreases s.len(),
{
    if s.len() == 0 {
        0
    } else {
        digits_value(s.drop_last()) * 10 + (s.last() - 48)
    }
}

pub open spec fn all_digits(s: Seq<u8>) -> bool {
    forall|i: int| 0 <= i < s.len() ==> 48 <= #[trigger] s[i] <= 57
}

/// What parsing an unsigned decimal accepts: an optional leading plus
/// sign, then at least one digit, with a value within `max`.
pub open spec fn spec_parse_uint(s: Seq<u8>, max: int) -> Option<int> {
    let t = if s.len() > 0 && s[0] == 43 {
        s.drop_first()
    } else {
        s
    };
    if t.len() == 0 || !all_digits(t) {
        None
    } else if digits_value(t) > max {
        None
    } else {
        Some(digits_value(t))
    }
}

/// What parsing a signed decimal accepts: an optional sign, then at
/// least one digit, with a value within the given bounds.
pub open spec fn spec_parse_int(s: Seq<u8>, min: int, max: int) -> Option<int> {
    if s.len() > 0 && s[0] == 45 {
        let t = s.drop_first();
        if t.len() == 0 || !all_digits(t) {
            None
        } else if -digits_value(t) < min {
            None
        } else {
            Some(-digits_value(t))
        }
    } else {
        spec_parse_uint(s, max)
    }
}

/// Digit values grow with each appended digit.
proof fn digits_value_nonneg(s: Seq<u8>)
    requires
        all_digits(s),
    ensures
        digits_value(s) >= 0,
    decreases s.len(),
{
    if s.len() > 0 {
        assert(all_digits(s.drop_last())) by {
            assert(forall|i: int|
                0 <= i < s.drop_last().len() ==> #[trigger] s.drop_last()[i] == s[i]);
        }
        digits_value_nonneg(s.drop_last());
    }
}

/// Parses the digits of `s[start..end]`, none of which may be a sign,
/// into a value bounded by `max`.
fn parse_digits(s: &[u8], start: usize, end: usize, max: u64) -> (r: Option<u64>)
    requires
        start <= end <= s@.len(),
    ensures
        ({
            let t = s@.subrange(start as int, end as int);
            match r {
                Some(v) => all_digits(t) && t.len() > 0 && v == digits_value(t) && v <= max,
                None => t.len() == 0 || !all_digits(t) || digits_value(t) > max,
            }
        }),
{
    let ghost t = s@.subrange(start as int, end as int);
    if start == end {
        return None;
    }
    let mut acc: u64 = 0;
    let mut i: usize = start;
    while i < end
        invariant
            start <= i <= end <= s@.len(),
            t == s@.subrange(start as int, end as int),
            all_digits(s@.subrange(start as int, i as int)),
            acc == digits_value(s@.subrange(start as int, i as int)),
            acc <= max,
        decreases end - i,
    {
        let ghost pre = s@.subrange(start as int, i as int);
        let b = s[i];
        if b < 48 || b > 57 {
            proof {
                assert(t[i - start] == b);
                assert(!all_digits(t));
            }
            return None;
        }
        let d: u64 = (b - 48) as u64;
        if d > max || acc > (max - d) / 10 {
            proof {
                let cur = s@.subrange(start as int, i as int + 1);
                assert(cur.drop_last() =~= pre);
                assert(cur.last() == b);
                assert(digits_value(cur) == acc * 10 + d);
                assert(digits_value(cur) > max);
                if all_digits(t) {
                    digits_grow(t, i as int + 1 - start);
                    assert(t.subrange(0, i as int + 1 - start) =~= cur);
                }
            }
            return None;
        }
        acc = acc * 10 + d;
        i = i + 1;
        proof {
            let cur = s@.subrange(start as int, i as int);
            assert(cur.drop_last() =~= s@.subrange(start as int, i as int - 1));
            assert(cur.last() == b);
        }
    }
    proof {
        assert(t =~= s@.subrange(start as int, end as int));
    }
    Some(acc)
}

/// If a prefix of an all-digit sequence already exceeds a bound, the
/// whole sequence does.
proof fn digits_grow(t: Seq<u8>, k: int)
    requires
        0 <= k <= t.len(),
        all_digits(t),
    ensures
        digits_value(t) >= digits_value(t.subrange(0, k)),
    decreases t.len() - k,
{
    if k < t.len() {
        let a = t.subrange(0, k);
        let b = t.subrange(0, k + 1);
        assert(b.drop_last() =~= a);
        assert(all_digits(a)) by {
            assert(forall|i: int| 0 <= i < a.len() ==> #[trigger] a[i] == t[i]);
        }
        digits_value_nonneg(a);
        assert(48 <= b.last() <= 57);
        assert(digits_value(b) == digits_value(a) * 10 + (b.last() - 48));
        assert(digits_value(b) >= digits_value(a));
        digits_grow(t, k + 1);
    } else {
        assert(t.subrange(0, k) =~= t);
    }
}

/// Parses an unsigned decimal in `s[start..end]` the way the standard
/// unsigned parsers do: an optional plus sign, then digits.
pub fn parse_uint(s: &[u8], start: usize, end: usize, max: u64) -> (r: Option<u64>)
    requires
        start <= end <= s@.len(),
    ensures
        ({
            let t = s@.subrange(start as int, end as int);
            match r {
                Some(v) => spec_parse_uint(t, max as int) == Some(v as int) && v <= max,
                None => spec_parse_uint(t, max as int) is None,
            }
        }),
{
    let ghost t = s@.subrange(start as int, end as int);
    let digits_start: usize = if start < end && s[start] == 43 {
        proof {
            assert(t.drop_first() =~= s@.subrange(start as int + 1, end as int));
        }
        start + 1
    } else {
        start
    };
    let r = parse_digits(s, digits_start, end, max);
    proof {
        if start < end && t[0] == 43 {
            assert(t.drop_first() =~= s@.subrange(start as int + 1, end as int));
        } else {
            assert(t =~= s@.subrange(start as int, end as int));
        }
        if r is Some {
            digits_value_nonneg(s@.subrange(digits_start as int, end as int));
        }
    }
    r
}

/// Parses a signed decimal in `s[start..end]` the way the standard
/// signed parsers do: an optional sign, then digits.
pub fn parse_int(s: &[u8], start: usize, end: usize, min: i64, max: i64) -> (r: Option<i64>)
    requires
        start <= end <= s@.len(),
        min <= 0 <= max,
    ensures
        ({
            let t = s@.subrange(start as int, end as int);
            match r {
                Some(v) => spec_parse_int(t, min as int, max as int) == Some(v as int) && min <= v
                    <= max,
                None => spec_parse_int(t, min as int, max as int) is None,
            }
        }),
{
    let ghost t = s@.subrange(start as int, end as int);
    if start < end && s[start] == 45 {
        proof {
            assert(t.drop_first() =~= s@.subrange(start as int + 1, end as int));
        }
        let neg_min: u64 = if min == i64::MIN {
            9223372036854775808u64
        } else {
            (-min) as u64
        };
        match parse_digits(s, start + 1, end, neg_min) {
            Some(v) => {
                proof {
                    digits_value_nonneg(s@.subrange(start as int + 1, end as int));
                }
                let x: i128 = -(v as i128);
                Some(x as i64)
            },
            None => None,
        }
    } else {
        match parse_uint(s, start, end, max as u64) {
            Some(v) => Some(v as i64),
            None => None,
        }
    }
}

} // verus!
