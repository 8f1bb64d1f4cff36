//! Fetching similar artists from the Last.fm API: payload parsing, score
//! quantization, write-back into the store, and the cache-or-fetch decision.
//!
//! The remote service encodes a similarity score as either a JSON string or
//! a JSON number; both forms are read as the same decimal text and quantized
//! to an integer 0..=100 by rounding `score * 100`.

use vstd::prelude::*;

use crate::error::LastfmError;
use crate::simmap::spec_map_find;
use crate::simmap::spec_map_insert;
use crate::simmap::SimMap;
use crate::store::lemma_find_artist_at;
use crate::store::lemma_find_artist_props;
use crate::store::lower_of;
use crate::store::spec_find_artist;
use crate::store::spec_has_pair;
use crate::store::spec_pairs_for;
use crate::store::spec_resolve_canonical;
use crate::store::spec_sort_desc;
use crate::store::spec_store_artist;
use crate::store::spec_store_pair;
use crate::store::PairModel;
use crate::store::Store;
use crate::store::StoreModel;

verus! {

// ---------------------------------------------------------------------------
// Score quantization: decimal text -> integer 0..=100
// ---------------------------------------------------------------------------
/// Whether `b` is an ASCII decimal digit.
pub open spec fn is_digit(b: u8) -> bool {
    48 <= b <= 57
}

/// The numeric value of an ASCII digit.
pub open spec fn digit_of(b: u8) -> int {
    b - 48
}

/// Whether every byte of `s` is an ASCII digit.
pub open spec fn all_digits(s: Seq<u8>) -> bool {
    forall|i: int| 0 <= i < s.len() ==> is_digit(#[trigger] s[i])
}

/// The integer a digit string denotes, most significant digit first.
pub open spec fn digits_value(s: Seq<u8>) -> int
    decreases s.len(),
{
    if s.len() == 0 {
        0
    } else {
        digits_value(s.drop_last()) * 10 + digit_of(s.last())
    }
}

/// The position of the first `.` in `s`, if any (46 is ASCII `.`).
pub open spec fn spec_dot_pos(s: Seq<u8>) -> Option<int>
    decreases s.len(),
{
    if s.len() == 0 {
        None
    } else if s[0] == 46 {
        Some(0int)
    } else {
        match spec_dot_pos(s.drop_first()) {
            Some(i) => Some(i + 1),
            None => None,
        }
    }
}

/// The `k`-th digit after the decimal point, with missing digits read as 0.
pub open spec fn frac_digit(s: Seq<u8>, k: int) -> int {
    if 0 <= k < s.len() {
        digit_of(s[k])
    } else {
        0
    }
}

/// Whether the fraction digits are all zero (48 is ASCII `0`).
pub open spec fn frac_is_zero(s: Seq<u8>) -> bool {
    forall|i: int| 0 <= i < s.len() ==> #[trigger] s[i] == 48
}

/// What quantization returns on the decimal text of a score: for a plain
/// decimal numeral whose value lies in [0, 1], the value times 100 rounded
/// half-up, i.e. `100*ip + 10*f1 + f2`, plus one when the third fraction
/// digit is 5 or more. Anything else — an empty or non-numeral text, or a
/// value above 1 — is rejected.
pub open spec fn spec_quantize(s: Seq<u8>) -> Option<int> {
    let ip = match spec_dot_pos(s) {
        Some(d) => s.take(d),
        None => s,
    };
    let fp = match spec_dot_pos(s) {
        Some(d) => s.skip(d + 1),
        None => Seq::empty(),
    };
    if all_digits(ip) && all_digits(fp) && ip.len() + fp.len() >= 1 && (digits_value(ip) == 0 || (
    digits_value(ip) == 1 && frac_is_zero(fp))) {
        Some(
            digits_value(ip) * 100 + frac_digit(fp, 0) * 10 + frac_digit(fp, 1) + (if frac_digit(
                fp,
                2,
            ) >= 5 {
                1int
            } else {
                0int
            }),
        )
    } else {
        None
    }
}

/// The first-dot search finds exactly the position that a left-to-right
/// scan stops at.
proof fn lemma_dot_pos_at(s: Seq<u8>, i: int)
    requires
        0 <= i <= s.len(),
        forall|k: int| 0 <= k < i ==> #[trigger] s[k] != 46,
        i < s.len() ==> s[i] == 46,
    ensures
        spec_dot_pos(s) == (if i < s.len() {
            Some(i)
        } else {
            None::<int>
        }),
    decreases s.len(),
{
    if s.len() == 0 {
    } else if s[0] == 46 {
        assert(i == 0);
    } else {
        assert(i >= 1);
        assert(forall|k: int| 0 <= k < s.len() - 1 ==> s.drop_first()[k] == s[k + 1]);
        lemma_dot_pos_at(s.drop_first(), i - 1);
    }
}

/// Appending a digit multiplies the value by ten and adds the digit.
proof fn lemma_digits_push(s: Seq<u8>, b: u8)
    ensures
        digits_value(s.push(b)) == digits_value(s) * 10 + digit_of(b),
{
    assert(s.push(b).drop_last() =~= s);
    assert(s.push(b).last() == b);
}

/// A digit string of digits denotes a non-negative value.
proof fn lemma_digits_value_nonneg(s: Seq<u8>)
    requires
        all_digits(s),
    ensures
        digits_value(s) >= 0,
    decreases s.len(),
{
    if s.len() > 0 {
        assert(all_digits(s.drop_last())) by {
            assert(forall|k: int| 0 <= k < s.len() - 1 ==> s.drop_last()[k] == s[k]);
        }
        lemma_digits_value_nonneg(s.drop_last());
    }
}

/// Quantize the decimal text of a similarity score: `round(score * 100)`
/// for scores in [0, 1] written as plain decimal numerals; `None` for
/// anything else.
#[verifier::loop_isolation(false)]
pub fn quantize_similarity(text: &Vec<u8>) -> (r: Option<i64>)
    ensures
        match r {
            Some(q) => 0 <= q <= 100 && spec_quantize(text@) == Some(q as int),
            None => spec_quantize(text@) is None,
        },
{
    let n = text.len();
    // locate the decimal point
    let mut d: usize = 0;
    while d < n && text[d] != 46
        invariant
            0 <= d <= n,
            n == text@.len(),
            forall|k: int| 0 <= k < d ==> #[trigger] text@[k] != 46,
        decreases n - d,
    {
        d = d + 1;
    }
    proof {
        lemma_dot_pos_at(text@, d as int);
    }
    // indices [0, d) form the integer part; [fstart, n) the fraction
    let fstart: usize = if d < n {
        d + 1
    } else {
        n
    };
    let ghost ip = (if d < n {
        text@.take(d as int)
    } else {
        text@
    });
    let ghost fp = (if d < n {
        text@.skip(d as int + 1)
    } else {
        Seq::<u8>::empty()
    });
    proof {
        assert(ip =~= text@.take(d as int));
        assert(ip.len() == d);
        assert(fp.len() == n - fstart);
        assert(forall|k: int| 0 <= k < ip.len() ==> ip[k] == text@[k]);
        assert(forall|k: int| 0 <= k < fp.len() ==> fp[k] == text@[fstart + k]);
    }
    if d == 0 && fstart >= n {
        // no digits at all
        return None;
    }
    // every byte outside the dot must be a digit
    let mut i: usize = 0;
    while i < d
        invariant
            0 <= i <= d <= n,
            n == text@.len(),
            ip.len() == d,
            forall|k: int| 0 <= k < ip.len() ==> ip[k] == text@[k],
            forall|k: int| 0 <= k < i ==> is_digit(#[trigger] ip[k]),
        decreases d - i,
    {
        let b = text[i];
        if b < 48 || b > 57 {
            proof {
                assert(!is_digit(ip[i as int]));
            }
            return None;
        }
        i = i + 1;
    }
    let mut j: usize = fstart;
    while j < n
        invariant
            fstart <= j <= n,
            n == text@.len(),
            fp.len() == n - fstart,
            forall|k: int| 0 <= k < fp.len() ==> fp[k] == text@[fstart + k],
            forall|k: int| 0 <= k < j - fstart ==> is_digit(#[trigger] fp[k]),
        decreases n - j,
    {
        let b = text[j];
        if b < 48 || b > 57 {
            proof {
                assert(!is_digit(fp[j - fstart]));
            }
            return None;
        }
        j = j + 1;
    }
    proof {
        assert(all_digits(ip));
        assert(all_digits(fp));
    }
    // the integer part, capped at 2: scores above 1 are out of range anyway
    let mut cap: i64 = 0;
    let mut i2: usize = 0;
    while i2 < d
        invariant
            0 <= i2 <= d <= n,
            n == text@.len(),
            ip.len() == d,
            all_digits(ip),
            forall|k: int| 0 <= k < ip.len() ==> ip[k] == text@[k],
            0 <= cap <= 2,
            cap == (if digits_value(ip.take(i2 as int)) >= 2 {
                2int
            } else {
                digits_value(ip.take(i2 as int))
            }),
        decreases d - i2,
    {
        let b = text[i2];
        let ghost pre = ip.take(i2 as int);
        proof {
            assert(all_digits(pre)) by {
                assert(forall|k: int| 0 <= k < pre.len() ==> pre[k] == ip[k]);
            }
            lemma_digits_value_nonneg(pre);
            assert(ip.take(i2 as int + 1) =~= pre.push(ip[i2 as int]));
            lemma_digits_push(pre, text@[i2 as int]);
        }
        if cap >= 1 {
            cap = 2;
        } else if b >= 50 {
            // a leading digit of 2 or more already puts the value above 1
            cap = 2;
        } else {
            cap = (b - 48) as i64;
        }
        i2 = i2 + 1;
    }
    proof {
        assert(ip.take(d as int) =~= ip);
    }
    // the three leading fraction digits
    let flen: usize = n - fstart;
    let f1: i64 = if flen >= 1 {
        proof {
            assert(is_digit(fp[0]));
        }
        (text[fstart] - 48) as i64
    } else {
        0
    };
    let f2: i64 = if flen >= 2 {
        proof {
            assert(is_digit(fp[1]));
        }
        (text[fstart + 1] - 48) as i64
    } else {
        0
    };
    let f3: i64 = if flen >= 3 {
        proof {
            assert(is_digit(fp[2]));
        }
        (text[fstart + 2] - 48) as i64
    } else {
        0
    };
    proof {
        assert(f1 as int == frac_digit(fp, 0));
        assert(f2 as int == frac_digit(fp, 1));
        assert(f3 as int == frac_digit(fp, 2));
    }
    if cap == 0 {
        Some(f1 * 10 + f2 + (if f3 >= 5 {
            1
        } else {
            0
        }))
    } else if cap == 1 {
        // value 1.000... quantizes to 100; anything above 1 is rejected
        let mut j2: usize = fstart;
        while j2 < n
            invariant
                fstart <= j2 <= n,
                n == text@.len(),
                fp.len() == n - fstart,
                forall|k: int| 0 <= k < fp.len() ==> fp[k] == text@[fstart + k],
                forall|k: int| 0 <= k < j2 - fstart ==> #[trigger] fp[k] == 48,
            decreases n - j2,
        {
            if text[j2] != 48 {
                proof {
                    assert(fp[j2 - fstart] != 48);
                }
                return None;
            }
            j2 = j2 + 1;
        }
        proof {
            assert(frac_is_zero(fp));
        }
        Some(100)
    } else {
        None
    }
}


/// What a listener count's decimal text denotes: its value, when the text
/// is one or more digits and the value fits in a `u32`.
pub open spec fn spec_listener_count(s: Seq<u8>) -> Option<u32> {
    if all_digits(s) && s.len() >= 1 && digits_value(s) <= 0xffff_ffff {
        Some(digits_value(s) as u32)
    } else {
        None
    }
}

/// A longer digit prefix never denotes a smaller value.
proof fn lemma_digits_value_grows(s: Seq<u8>, i: int)
    requires
        all_digits(s),
        0 <= i <= s.len(),
    ensures
        digits_value(s) >= digits_value(s.take(i)),
    decreases s.len(),
{
    lemma_digits_value_nonneg(s);
    if i < s.len() {
        let pre = s.drop_last();
        assert(all_digits(pre)) by {
            assert(forall|k: int| 0 <= k < pre.len() ==> pre[k] == s[k]);
        }
        assert(pre.take(i) =~= s.take(i));
        lemma_digits_value_grows(pre, i);
        lemma_digits_value_nonneg(pre);
    } else {
        assert(s.take(i) =~= s);
    }
}

/// Parse a listener count's decimal text: the denoted value for a plain
/// digit string that fits in a `u32`; `None` for anything else.
#[verifier::loop_isolation(false)]
pub fn parse_listener_count(text: &Vec<u8>) -> (r: Option<u32>)
    ensures
        r == spec_listener_count(text@),
{
    let n = text.len();
    if n == 0 {
        return None;
    }
    let mut acc: u64 = 0;
    let mut i: usize = 0;
    while i < n
        invariant
            0 <= i <= n,
            n == text@.len(),
            all_digits(text@.take(i as int)),
            acc == digits_value(text@.take(i as int)),
            acc <= 0xffff_ffff,
        decreases n - i,
    {
        let b = text[i];
        if b < 48 || b > 57 {
            proof {
                assert(!is_digit(text@[i as int]));
            }
            return None;
        }
        let ghost pre = text@.take(i as int);
        proof {
            assert(text@.take(i as int + 1) =~= pre.push(text@[i as int]));
            lemma_digits_push(pre, text@[i as int]);
        }
        let d = (b - 48) as u64;
        let next: u64 = acc * 10 + d;
        proof {
            assert(all_digits(text@.take(i as int + 1))) by {
                assert(forall|k: int|
                    0 <= k < i ==> text@.take(i as int + 1)[k] == text@.take(i as int)[k]);
                assert(text@.take(i as int + 1)[i as int] == text@[i as int]);
            }
        }
        if next > 0xffff_ffff {
            proof {
                // the value already exceeds the range, and more digits only
                // grow it
                if all_digits(text@) {
                    lemma_digits_value_grows(text@, i as int + 1);
                }
            }
            return None;
        }
        acc = next;
        i = i + 1;
    }
    proof {
        assert(text@.take(n as int) =~= text@);
    }
    Some(acc as u32)
}

// ---------------------------------------------------------------------------
// Parsed payloads
// ---------------------------------------------------------------------------
/// One similar artist from a payload: the canonical child name and its
/// quantized similarity, an integer 0..=100.
#[derive(Debug)]
pub struct SimilarArtist {
    pub name: String,
    pub similarity: i64,
}

/// The mathematical value of a [`SimilarArtist`].
pub ghost struct SimilarModel {
    pub name: Seq<char>,
    pub similarity: int,
}

impl View for SimilarArtist {
    type V = SimilarModel;

    open spec fn view(&self) -> SimilarModel {
        SimilarModel { name: self.name@, similarity: self.similarity as int }
    }
}

/// A parsed similar-artists payload: the canonical spelling of the queried
/// artist and its ranked similar artists, in the service's order.
#[derive(Debug)]
pub struct LastfmArtist {
    pub canonical_name: String,
    pub similar_artists: Vec<SimilarArtist>,
}

/// The mathematical value of a [`LastfmArtist`].
pub ghost struct LastfmModel {
    pub canonical: Seq<char>,
    pub similar: Seq<SimilarModel>,
}

impl View for LastfmArtist {
    type V = LastfmModel;

    open spec fn view(&self) -> LastfmModel {
        LastfmModel {
            canonical: self.canonical_name@,
            similar: self.similar_artists@.map_values(|s: SimilarArtist| s@),
        }
    }
}

/// A well-formed payload: every similarity lies in 0..=100.
pub open spec fn lastfm_wf(a: LastfmModel) -> bool {
    forall|i: int| 0 <= i < a.similar.len() ==> 0 <= (#[trigger] a.similar[i]).similarity <= 100
}

// ---------------------------------------------------------------------------
// JSON access, through serde_json
// ---------------------------------------------------------------------------
#[verifier::external_type_specification]
#[verifier::external_body]
pub struct ExValue(serde_json::Value);

/// Relies on `serde_json::from_str`: the JSON document that `s` holds, or
/// nothing when `s` is not valid JSON.
#[verifier::external_body]
fn json_from_str(s: &str) -> (r: Option<serde_json::Value>) {
    serde_json::from_str::<serde_json::Value>(s).ok()
}

/// Relies on `serde_json::Value::get`: the value under `key` in a JSON
/// object, or nothing for a missing key or a non-object.
#[verifier::external_body]
fn json_get<'a>(v: &'a serde_json::Value, key: &str) -> (r: Option<&'a serde_json::Value>) {
    v.get(key)
}

/// Relies on `serde_json::Value::as_str`: the text of a JSON string, or
/// nothing for another kind of value.
#[verifier::external_body]
fn json_as_str(v: &serde_json::Value) -> (r: Option<String>) {
    v.as_str().map(|s| s.to_string())
}

/// Relies on `serde_json::Value::as_array`: the elements of a JSON array,
/// or nothing for another kind of value.
#[verifier::external_body]
fn json_as_array(v: &serde_json::Value) -> (r: Option<&Vec<serde_json::Value>>) {
    v.as_array()
}

/// Relies on `serde_json::Value` and `serde_json::Number::to_string`: the
/// bytes of a JSON string, or the decimal rendering of a JSON number — the
/// two forms the service uses for a similarity score.
#[verifier::external_body]
fn json_similarity_text(v: &serde_json::Value) -> (r: Option<Vec<u8>>) {
    match v {
        serde_json::Value::String(s) => Some(s.clone().into_bytes()),
        serde_json::Value::Number(n) => Some(n.to_string().into_bytes()),
        _ => None,
    }
}

/// Parse a similar-artists payload: the canonical name from the `@attr`
/// object and the ranked `artist` array, each score quantized to 0..=100.
/// Any missing field, malformed score, or non-JSON input is a parse error.
///
/// The JSON reading is trusted call by call, so this contract promises
/// only the error kind and well-formedness of a parsed value; what each
/// parsed value then means is specified exactly downstream, by
/// `quantize_similarity`, `Store::ingest_similar` and
/// `TreeBuilder::supply_parsed`.
pub fn parse_similar_artists(payload: &str) -> (r: Result<LastfmArtist, LastfmError>)
    ensures
        match r {
            Ok(a) => lastfm_wf(a@),
            Err(e) => e == LastfmError::ParseError,
        },
{
    let root = match json_from_str(payload) {
        Some(v) => v,
        None => {
            return Err(LastfmError::ParseError);
        },
    };
    let similar = match json_get(&root, "similarartists") {
        Some(v) => v,
        None => {
            return Err(LastfmError::ParseError);
        },
    };
    let attr = match json_get(similar, "@attr") {
        Some(v) => v,
        None => {
            return Err(LastfmError::ParseError);
        },
    };
    let canon_value = match json_get(attr, "artist") {
        Some(v) => v,
        None => {
            return Err(LastfmError::ParseError);
        },
    };
    let canonical_name = match json_as_str(canon_value) {
        Some(s) => s,
        None => {
            return Err(LastfmError::ParseError);
        },
    };
    let arr = match json_get(similar, "artist") {
        Some(v) => match json_as_array(v) {
            Some(a) => a,
            None => {
                return Err(LastfmError::ParseError);
            },
        },
        None => {
            return Err(LastfmError::ParseError);
        },
    };
    let mut similar_artists: Vec<SimilarArtist> = Vec::new();
    let n = arr.len();
    let mut i: usize = 0;
    while i < n
        invariant
            0 <= i <= n,
            n == arr.len(),
            forall|k: int|
                0 <= k < similar_artists@.len() ==> 0 <= (
                #[trigger] similar_artists@[k]).similarity <= 100,
        decreases n - i,
    {
        let name = match json_get(&arr[i], "name") {
            Some(v) => match json_as_str(v) {
                Some(s) => s,
                None => {
                    return Err(LastfmError::ParseError);
                },
            },
            None => {
                return Err(LastfmError::ParseError);
            },
        };
        let score_text = match json_get(&arr[i], "match") {
            Some(v) => match json_similarity_text(v) {
                Some(t) => t,
                None => {
                    return Err(LastfmError::ParseError);
                },
            },
            None => {
                return Err(LastfmError::ParseError);
            },
        };
        let similarity = match quantize_similarity(&score_text) {
            Some(q) => q,
            None => {
                return Err(LastfmError::ParseError);
            },
        };
        similar_artists.push(SimilarArtist { name, similarity });
        i = i + 1;
    }
    let a = LastfmArtist { canonical_name, similar_artists };
    Ok(a)
}


/// Parse an artist-info payload's listener count, from the `artist` →
/// `stats` → `listeners` field (a digit string, or a plain number). Any
/// missing field or malformed count is a parse error; the exact digits
/// grammar is `parse_listener_count`'s contract.
pub fn parse_listeners(payload: &str) -> (r: Result<u32, LastfmError>)
    ensures
        match r {
            Ok(_) => true,
            Err(e) => e == LastfmError::ParseError,
        },
{
    let root = match json_from_str(payload) {
        Some(v) => v,
        None => {
            return Err(LastfmError::ParseError);
        },
    };
    let stats = match json_get(&root, "artist") {
        Some(a) => match json_get(a, "stats") {
            Some(st) => st,
            None => {
                return Err(LastfmError::ParseError);
            },
        },
        None => {
            return Err(LastfmError::ParseError);
        },
    };
    let text = match json_get(stats, "listeners") {
        Some(v) => match json_similarity_text(v) {
            Some(t) => t,
            None => {
                return Err(LastfmError::ParseError);
            },
        },
        None => {
            return Err(LastfmError::ParseError);
        },
    };
    match parse_listener_count(&text) {
        Some(n) => Ok(n),
        None => Err(LastfmError::ParseError),
    }
}

/// Parse an artist-info payload's tag list, from the `artist` → `tags` →
/// `tag` array's `name` fields. Any missing field is a parse error.
pub fn parse_artist_tags(payload: &str) -> (r: Result<Vec<String>, LastfmError>)
    ensures
        match r {
            Ok(_) => true,
            Err(e) => e == LastfmError::ParseError,
        },
{
    let root = match json_from_str(payload) {
        Some(v) => v,
        None => {
            return Err(LastfmError::ParseError);
        },
    };
    let arr = match json_get(&root, "artist") {
        Some(a) => match json_get(a, "tags") {
            Some(ts) => match json_get(ts, "tag") {
                Some(t) => match json_as_array(t) {
                    Some(l) => l,
                    None => {
                        return Err(LastfmError::ParseError);
                    },
                },
                None => {
                    return Err(LastfmError::ParseError);
                },
            },
            None => {
                return Err(LastfmError::ParseError);
            },
        },
        None => {
            return Err(LastfmError::ParseError);
        },
    };
    let mut tags: Vec<String> = Vec::new();
    let n = arr.len();
    let mut i: usize = 0;
    while i < n
        invariant
            0 <= i <= n,
            n == arr.len(),
        decreases n - i,
    {
        let name = match json_get(&arr[i], "name") {
            Some(v) => match json_as_str(v) {
                Some(s) => s,
                None => {
                    return Err(LastfmError::ParseError);
                },
            },
            None => {
                return Err(LastfmError::ParseError);
            },
        };
        tags.push(name);
        i = i + 1;
    }
    Ok(tags)
}

// ---------------------------------------------------------------------------
// Write-back and the cache-or-fetch decision
// ---------------------------------------------------------------------------
/// The store after recording every (canonical, child, similarity) pair of
/// `sims`, in order, each insert idempotent.
pub open spec fn spec_ingest_pairs(
    m: StoreModel,
    canon: Seq<char>,
    sims: Seq<SimilarModel>,
) -> StoreModel
    decreases sims.len(),
{
    if sims.len() == 0 {
        m
    } else {
        spec_ingest_pairs(
            spec_store_pair(m, canon, sims[0].name, sims[0].similarity),
            canon,
            sims.drop_first(),
        )
    }
}

/// The store after ingesting a fetched payload: the canonical artist is
/// recorded, then every similarity pair.
pub open spec fn spec_ingest(m: StoreModel, a: LastfmModel) -> StoreModel {
    spec_ingest_pairs(spec_store_artist(m, a.canonical), a.canonical, a.similar)
}

/// The returned map built from `sims` in the service's order, skipping the
/// canonical artist itself: the parent never appears in its own map.
pub open spec fn spec_similar_map_rec(
    acc: Seq<(Seq<char>, int)>,
    canon: Seq<char>,
    sims: Seq<SimilarModel>,
) -> Seq<(Seq<char>, int)>
    decreases sims.len(),
{
    if sims.len() == 0 {
        acc
    } else {
        spec_similar_map_rec(
            if sims[0].name == canon {
                acc
            } else {
                spec_map_insert(acc, sims[0].name, sims[0].similarity)
            },
            canon,
            sims.drop_first(),
        )
    }
}

/// The child map a fetched payload yields, in the service's order.
pub open spec fn spec_similar_map(a: LastfmModel) -> Seq<(Seq<char>, int)> {
    spec_similar_map_rec(Seq::empty(), a.canonical, a.similar)
}

/// The entries of a cached child map: the sorted pairs folded into an
/// ordered map, child by child.
pub open spec fn spec_insert_all(
    acc: Seq<(Seq<char>, int)>,
    ps: Seq<PairModel>,
) -> Seq<(Seq<char>, int)>
    decreases ps.len(),
{
    if ps.len() == 0 {
        acc
    } else {
        spec_insert_all(spec_map_insert(acc, ps[0].child, ps[0].similarity), ps.drop_first())
    }
}

/// What the cache answers for `name`: nothing when the artist was never
/// resolved, else its cached pairs, sorted by similarity descending, as an
/// ordered child map (empty when no pairs are cached — that is a hit).
pub open spec fn spec_cached_map(m: StoreModel, name: Seq<char>) -> Option<Seq<(Seq<char>, int)>> {
    match spec_resolve_canonical(m, name) {
        None => None,
        Some(c) => Some(spec_insert_all(Seq::empty(), spec_sort_desc(spec_pairs_for(m.pairs, c)))),
    }
}

/// The resolver's answer for an artist: its cached child map, or the name
/// to fetch when the cache misses and a key is available.
pub enum Resolved {
    /// The cache held the artist: its child map, similarity descending.
    Cached(SimMap),
    /// The cache missed: fetch this name from the remote service.
    NeedsFetch(String),
}

impl Store {
    /// Ingest a fetched payload: record the canonical spelling and every
    /// pair (both idempotently), and return the child map in the service's
    /// order, without the canonical artist itself.
    pub fn ingest_similar(&mut self, artist: &LastfmArtist) -> (map: SimMap)
        requires
            lastfm_wf(artist@),
        ensures
            final(self)@ == spec_ingest(old(self)@, artist@),
            map@ == spec_similar_map(artist@),
    {
        let ghost goal_store = spec_ingest(old(self)@, artist@);
        let ghost goal_map = spec_similar_map(artist@);
        let ghost canon = artist@.canonical;
        let ghost sims = artist@.similar;
        self.store(&artist.canonical_name);
        let mut map = SimMap::new();
        let n = artist.similar_artists.len();
        let mut i: usize = 0;
        proof {
            assert(sims.skip(0) =~= sims);
        }
        while i < n
            invariant
                0 <= i <= n,
                n == artist.similar_artists@.len(),
                sims == artist@.similar,
                canon == artist@.canonical,
                lastfm_wf(artist@),
                spec_ingest_pairs(self@, canon, sims.skip(i as int)) == goal_store,
                spec_similar_map_rec(map@, canon, sims.skip(i as int)) == goal_map,
            decreases n - i,
        {
            proof {
                assert(sims.skip(i as int).drop_first() =~= sims.skip(i as int + 1));
                assert(sims.skip(i as int)[0] == sims[i as int]);
                assert(sims[i as int] == artist.similar_artists@[i as int]@);
            }
            let child = &artist.similar_artists[i];
            self.store_pair(&artist.canonical_name, &child.name, child.similarity);
            if !child.name.eq(&artist.canonical_name) {
                map.insert(child.name.clone(), child.similarity);
            }
            i = i + 1;
        }
        proof {
            assert(sims.skip(n as int) =~= Seq::<SimilarModel>::empty());
        }
        map
    }

    /// The cached child map of `name`: nothing on a cache miss; on a hit,
    /// the cached pairs sorted by similarity descending, as an ordered map
    /// (empty when the artist has no cached pairs).
    pub fn get_cached_similar_artists(&self, name: &str) -> (r: Option<SimMap>)
        ensures
            match r {
                Some(m) => spec_cached_map(self@, name@) == Some(m@) && (forall|k: int|
                    0 <= k < m@.len() ==> 0 <= (#[trigger] m@[k]).1 <= 100),
                None => spec_cached_map(self@, name@) is None,
            },
    {
        if self.canonical_name(name).is_none() {
            return None;
        }
        let mut map = SimMap::new();
        let ghost c = spec_resolve_canonical(self@, name@).unwrap();
        let ghost sorted = spec_sort_desc(spec_pairs_for(self@.pairs, c));
        match self.get_artist_pairs(name) {
            None => {
                proof {
                    crate::store::lemma_sort_desc_len(spec_pairs_for(self@.pairs, c));
                    assert(sorted =~= Seq::<PairModel>::empty());
                    assert(spec_insert_all(map@, sorted) == map@);
                }
                Some(map)
            },
            Some(pairs) => {
                let ghost pview = crate::store::pairs_view(pairs@);
                proof {
                    assert(pview == sorted);
                    assert(pview.skip(0) =~= pview);
                }
                let n = pairs.len();
                let mut i: usize = 0;
                while i < n
                    invariant
                        0 <= i <= n,
                        n == pairs@.len(),
                        pview == crate::store::pairs_view(pairs@),
                        spec_insert_all(map@, pview.skip(i as int)) == spec_insert_all(
                            Seq::empty(),
                            pview,
                        ),
                        forall|k: int|
                            0 <= k < pairs@.len() ==> crate::store::pair_ok(#[trigger] pview[k]),
                        forall|k: int| 0 <= k < map@.len() ==> 0 <= (#[trigger] map@[k]).1 <= 100,
                    decreases n - i,
                {
                    proof {
                        assert(pview.skip(i as int).drop_first() =~= pview.skip(i as int + 1));
                        assert(pview.skip(i as int)[0] == pview[i as int]);
                        assert(pview[i as int] == pairs@[i as int]@);
                    }
                    let ghost pre_map = map@;
                    map.insert(pairs[i].child.clone(), pairs[i].similarity);
                    proof {
                        assert forall|k: int| 0 <= k < map@.len() implies 0 <= (
                        #[trigger] map@[k]).1 <= 100 by {
                            if spec_map_find(pre_map, pview[i as int].child) is Some {
                                crate::simmap::lemma_map_find_props(
                                    pre_map,
                                    pview[i as int].child,
                                );
                            }
                        }
                    }
                    i = i + 1;
                }
                proof {
                    assert(pview.skip(n as int) =~= Seq::<PairModel>::empty());
                }
                Some(map)
            },
        }
    }

    /// Cache-or-fetch decision for one artist: a cached artist answers
    /// entirely from the store; an uncached one needs the network, which
    /// needs a key — so a fetch is only ever requested for an artist the
    /// store does not know, and never without a configured key.
    pub fn get_similar_artists(&self, name: &str) -> (r: Result<Resolved, LastfmError>)
        ensures
            match r {
                Ok(Resolved::Cached(m)) => spec_cached_map(self@, name@) == Some(m@) && (forall|
                    k: int,
                |
                    0 <= k < m@.len() ==> 0 <= (#[trigger] m@[k]).1 <= 100),
                Ok(Resolved::NeedsFetch(q)) => spec_resolve_canonical(self@, name@) is None
                    && self@.api_key is Some && q@ == name@,
                Err(e) => e == LastfmError::NoApiKey && spec_resolve_canonical(self@, name@)
                    is None && self@.api_key is None,
            },
    {
        match self.get_cached_similar_artists(name) {
            Some(m) => Ok(Resolved::Cached(m)),
            None => match self.get_api_key() {
                Some(_) => Ok(Resolved::NeedsFetch(name.to_owned())),
                None => Err(LastfmError::NoApiKey),
            },
        }
    }
}

/// Recording similarity pairs never touches the artist table.
proof fn lemma_ingest_pairs_artists(m: StoreModel, canon: Seq<char>, sims: Seq<SimilarModel>)
    ensures
        spec_ingest_pairs(m, canon, sims).artists == m.artists,
    decreases sims.len(),
{
    if sims.len() > 0 {
        lemma_ingest_pairs_artists(
            spec_store_pair(m, canon, sims[0].name, sims[0].similarity),
            canon,
            sims.drop_first(),
        );
    }
}

/// Law: ingesting a payload canonicalizes its artist. Afterwards the
/// canonical name resolves in the store; and when no spelling of the
/// artist was recorded before, it resolves to exactly the payload's
/// spelling — so a later build of any spelling of this artist reaches the
/// same stored record instead of the network.
pub proof fn lemma_ingest_canonicalizes(m: StoreModel, a: LastfmModel)
    ensures
        spec_resolve_canonical(spec_ingest(m, a), a.canonical) is Some,
        spec_find_artist(m.artists, lower_of(a.canonical)) is None
            ==> spec_resolve_canonical(spec_ingest(m, a), a.canonical) == Some(a.canonical),
{
    let m1 = spec_store_artist(m, a.canonical);
    lemma_ingest_pairs_artists(m1, a.canonical, a.similar);
    match spec_find_artist(m.artists, lower_of(a.canonical)) {
        Some(i) => {
            lemma_find_artist_props(m.artists, lower_of(a.canonical));
        },
        None => {
            lemma_find_artist_props(m.artists, lower_of(a.canonical));
            lemma_find_artist_at(m1.artists, lower_of(a.canonical), m.artists.len() as int);
        },
    }
}

// ---------------------------------------------------------------------------
// The fetched order and the cached order agree
// ---------------------------------------------------------------------------
/// The pair rows a payload's children contribute, in the service's order,
/// skipping the canonical artist itself.
pub open spec fn spec_payload_pairs(canon: Seq<char>, sims: Seq<SimilarModel>) -> Seq<PairModel>
    decreases sims.len(),
{
    if sims.len() == 0 {
        Seq::empty()
    } else {
        (if sims[0].name == canon {
            Seq::empty()
        } else {
            seq![PairModel {
                parent: canon,
                child: sims[0].name,
                similarity: sims[0].similarity,
            }]
        }) + spec_payload_pairs(canon, sims.drop_first())
    }
}

/// The map entries of a list of pair rows, child by child.
pub open spec fn entries_of_pairs(ps: Seq<PairModel>) -> Seq<(Seq<char>, int)> {
    ps.map_values(|p: PairModel| (p.child, p.similarity))
}

/// Selecting by parent distributes over concatenation.
proof fn lemma_pairs_for_append(s1: Seq<PairModel>, s2: Seq<PairModel>, parent: Seq<char>)
    ensures
        spec_pairs_for(s1 + s2, parent) == spec_pairs_for(s1, parent) + spec_pairs_for(s2, parent),
    decreases s1.len(),
{
    if s1.len() == 0 {
        assert(s1 + s2 =~= s2);
        assert(spec_pairs_for(s1, parent) + spec_pairs_for(s2, parent) =~= spec_pairs_for(
            s2,
            parent,
        ));
    } else {
        assert((s1 + s2).drop_first() =~= s1.drop_first() + s2);
        assert((s1 + s2)[0] == s1[0]);
        lemma_pairs_for_append(s1.drop_first(), s2, parent);
        assert((if s1[0].parent == parent {
            seq![s1[0]]
        } else {
            Seq::<PairModel>::empty()
        }) + (spec_pairs_for(s1.drop_first(), parent) + spec_pairs_for(s2, parent))
            =~= spec_pairs_for(s1, parent) + spec_pairs_for(s2, parent));
    }
}

/// A row whose parent matches makes the selection non-empty.
proof fn lemma_pairs_for_member(ps: Seq<PairModel>, parent: Seq<char>, i: int)
    requires
        0 <= i < ps.len(),
        ps[i].parent == parent,
    ensures
        spec_pairs_for(ps, parent).len() >= 1,
    decreases i,
{
    if i > 0 {
        lemma_pairs_for_member(ps.drop_first(), parent, i - 1);
    }
}

/// Selecting by parent is the identity on rows that all carry it.
proof fn lemma_pairs_for_own(ps: Seq<PairModel>, parent: Seq<char>)
    requires
        forall|k: int| 0 <= k < ps.len() ==> (#[trigger] ps[k]).parent == parent,
    ensures
        spec_pairs_for(ps, parent) == ps,
    decreases ps.len(),
{
    if ps.len() > 0 {
        assert(forall|k: int|
            0 <= k < ps.drop_first().len() ==> (#[trigger] ps.drop_first()[k]).parent == parent);
        lemma_pairs_for_own(ps.drop_first(), parent);
        assert(seq![ps[0]] + ps.drop_first() =~= ps);
    }
}

/// Ingesting children that are not yet paired appends exactly the
/// payload's pair rows.
proof fn lemma_ingest_pairs_appends(m: StoreModel, canon: Seq<char>, sims: Seq<SimilarModel>)
    requires
        forall|k: int|
            0 <= k < sims.len() ==> !spec_has_pair(m.pairs, canon, (#[trigger] sims[k]).name),
        forall|i: int, j: int|
            #![trigger sims[i], sims[j]]
            0 <= i < j < sims.len() ==> sims[i].name != sims[j].name,
    ensures
        spec_ingest_pairs(m, canon, sims).pairs == m.pairs + spec_payload_pairs(canon, sims),
    decreases sims.len(),
{
    if sims.len() == 0 {
        assert(m.pairs + spec_payload_pairs(canon, sims) =~= m.pairs);
    } else {
        let s0 = sims[0];
        let m2 = spec_store_pair(m, canon, s0.name, s0.similarity);
        let rest = sims.drop_first();
        assert(forall|k: int| 0 <= k < rest.len() ==> rest[k] == sims[k + 1]);
        if s0.name == canon {
            assert(m2 == m);
            lemma_ingest_pairs_appends(m2, canon, rest);
            assert(m.pairs + spec_payload_pairs(canon, rest) =~= m.pairs + spec_payload_pairs(
                canon,
                sims,
            ));
        } else {
            assert(!spec_has_pair(m.pairs, canon, s0.name));
            let p0 = PairModel { parent: canon, child: s0.name, similarity: s0.similarity };
            assert(m2.pairs =~= m.pairs.push(p0));
            assert forall|k: int|
                0 <= k < rest.len() implies !spec_has_pair(
                m2.pairs,
                canon,
                (#[trigger] rest[k]).name,
            ) by {
                if spec_has_pair(m2.pairs, canon, rest[k].name) {
                    let w = choose|w: int|
                        0 <= w < m2.pairs.len() && m2.pairs[w].parent == canon
                            && m2.pairs[w].child == rest[k].name;
                    if w < m.pairs.len() {
                        assert(spec_has_pair(m.pairs, canon, sims[k + 1].name));
                    } else {
                        assert(m2.pairs[w] == p0);
                        assert(sims[0].name == sims[k + 1].name);
                    }
                }
            }
            lemma_ingest_pairs_appends(m2, canon, rest);
            assert(m.pairs.push(p0) + spec_payload_pairs(canon, rest) =~= m.pairs
                + spec_payload_pairs(canon, sims));
        }
    }
}

/// Every payload pair row carries the canonical artist as its parent.
proof fn lemma_payload_pairs_parent(canon: Seq<char>, sims: Seq<SimilarModel>)
    ensures
        forall|k: int|
            0 <= k < spec_payload_pairs(canon, sims).len() ==> (#[trigger] spec_payload_pairs(
                canon,
                sims,
            )[k]).parent == canon,
    decreases sims.len(),
{
    if sims.len() > 0 {
        let rest = sims.drop_first();
        lemma_payload_pairs_parent(canon, rest);
        assert forall|k: int|
            0 <= k < spec_payload_pairs(canon, sims).len() implies (
        #[trigger] spec_payload_pairs(canon, sims)[k]).parent == canon by {
            if sims[0].name == canon {
                assert(spec_payload_pairs(canon, sims)[k] == spec_payload_pairs(canon, rest)[k]);
            } else if k >= 1 {
                assert(spec_payload_pairs(canon, sims)[k] == spec_payload_pairs(canon, rest)[k
                    - 1]);
            }
        }
    }
}

/// Every payload pair row's similarity stays under a bound on the scores.
proof fn lemma_payload_pairs_bound(canon: Seq<char>, sims: Seq<SimilarModel>, b: int)
    requires
        forall|k: int| 0 <= k < sims.len() ==> (#[trigger] sims[k]).similarity <= b,
    ensures
        forall|k: int|
            0 <= k < spec_payload_pairs(canon, sims).len() ==> (#[trigger] spec_payload_pairs(
                canon,
                sims,
            )[k]).similarity <= b,
    decreases sims.len(),
{
    if sims.len() > 0 {
        let rest = sims.drop_first();
        assert(forall|k: int| 0 <= k < rest.len() ==> rest[k] == sims[k + 1]);
        lemma_payload_pairs_bound(canon, rest, b);
        assert forall|k: int|
            0 <= k < spec_payload_pairs(canon, sims).len() implies (
        #[trigger] spec_payload_pairs(canon, sims)[k]).similarity <= b by {
            if sims[0].name == canon {
                assert(spec_payload_pairs(canon, sims)[k] == spec_payload_pairs(canon, rest)[k]);
            } else if k >= 1 {
                assert(spec_payload_pairs(canon, sims)[k] == spec_payload_pairs(canon, rest)[k
                    - 1]);
            }
        }
    }
}

/// Ranked scores give ranked payload pair rows.
proof fn lemma_payload_pairs_ranked(canon: Seq<char>, sims: Seq<SimilarModel>)
    requires
        forall|i: int, j: int|
            #![trigger sims[i], sims[j]]
            0 <= i < j < sims.len() ==> sims[i].similarity >= sims[j].similarity,
    ensures
        forall|i: int, j: int|
            #![trigger spec_payload_pairs(canon, sims)[i], spec_payload_pairs(canon, sims)[j]]
            0 <= i < j < spec_payload_pairs(canon, sims).len() ==> spec_payload_pairs(
                canon,
                sims,
            )[i].similarity >= spec_payload_pairs(canon, sims)[j].similarity,
    decreases sims.len(),
{
    if sims.len() > 0 {
        let rest = sims.drop_first();
        assert(forall|k: int| 0 <= k < rest.len() ==> rest[k] == sims[k + 1]);
        lemma_payload_pairs_ranked(canon, rest);
        lemma_payload_pairs_bound(canon, rest, sims[0].similarity);
        let ps = spec_payload_pairs(canon, sims);
        let pr = spec_payload_pairs(canon, rest);
        assert forall|i: int, j: int|
            #![trigger ps[i], ps[j]]
            0 <= i < j < ps.len() implies ps[i].similarity >= ps[j].similarity by {
            if sims[0].name == canon {
                assert(ps[i] == pr[i] && ps[j] == pr[j]);
            } else {
                if i == 0 {
                    assert(ps[j] == pr[j - 1]);
                } else {
                    assert(ps[i] == pr[i - 1] && ps[j] == pr[j - 1]);
                }
            }
        }
    }
}

/// Distinct child names give distinct payload pair children.
proof fn lemma_payload_pairs_distinct(canon: Seq<char>, sims: Seq<SimilarModel>)
    requires
        forall|i: int, j: int|
            #![trigger sims[i], sims[j]]
            0 <= i < j < sims.len() ==> sims[i].name != sims[j].name,
    ensures
        forall|i: int, j: int|
            #![trigger spec_payload_pairs(canon, sims)[i], spec_payload_pairs(canon, sims)[j]]
            0 <= i < j < spec_payload_pairs(canon, sims).len() ==> spec_payload_pairs(
                canon,
                sims,
            )[i].child != spec_payload_pairs(canon, sims)[j].child,
        forall|k: int|
            0 <= k < spec_payload_pairs(canon, sims).len() ==> spec_has_child_name(
                sims,
                (#[trigger] spec_payload_pairs(canon, sims)[k]).child,
            ),
    decreases sims.len(),
{
    if sims.len() > 0 {
        let rest = sims.drop_first();
        assert(forall|k: int| 0 <= k < rest.len() ==> rest[k] == sims[k + 1]);
        lemma_payload_pairs_distinct(canon, rest);
        let ps = spec_payload_pairs(canon, sims);
        let pr = spec_payload_pairs(canon, rest);
        assert forall|k: int|
            0 <= k < ps.len() implies spec_has_child_name(sims, (#[trigger] ps[k]).child) by {
            if sims[0].name == canon {
                assert(ps[k] == pr[k]);
                let w = choose|w: int| 0 <= w < rest.len() && rest[w].name == pr[k].child;
                assert(sims[w + 1].name == ps[k].child);
            } else if k == 0 {
                assert(sims[0].name == ps[0].child);
            } else {
                assert(ps[k] == pr[k - 1]);
                let w = choose|w: int| 0 <= w < rest.len() && rest[w].name == pr[k - 1].child;
                assert(sims[w + 1].name == ps[k].child);
            }
        }
        assert forall|i: int, j: int|
            #![trigger ps[i], ps[j]]
            0 <= i < j < ps.len() implies ps[i].child != ps[j].child by {
            if sims[0].name == canon {
                assert(ps[i] == pr[i] && ps[j] == pr[j]);
            } else if i == 0 {
                assert(ps[j] == pr[j - 1]);
                let w = choose|w: int| 0 <= w < rest.len() && rest[w].name == pr[j - 1].child;
                assert(sims[w + 1].name == ps[j].child);
                assert(sims[0].name != sims[w + 1].name);
            } else {
                assert(ps[i] == pr[i - 1] && ps[j] == pr[j - 1]);
            }
        }
    }
}

/// Whether some child entry of `sims` carries `name`.
pub open spec fn spec_has_child_name(sims: Seq<SimilarModel>, name: Seq<char>) -> bool {
    exists|w: int| 0 <= w < sims.len() && (#[trigger] sims[w]).name == name
}

/// Inserting a key absent from the map appends the entry.
proof fn lemma_map_insert_fresh(acc: Seq<(Seq<char>, int)>, key: Seq<char>, value: int)
    requires
        forall|t: int| 0 <= t < acc.len() ==> (#[trigger] acc[t]).0 != key,
    ensures
        spec_map_insert(acc, key, value) == acc.push((key, value)),
{
    crate::simmap::lemma_map_find_at(acc, key, acc.len() as int);
}

/// Folding distinct, fresh pair rows into a map appends their entries.
proof fn lemma_insert_all_fresh(acc: Seq<(Seq<char>, int)>, ps: Seq<PairModel>)
    requires
        forall|k: int, t: int|
            #![trigger ps[k], acc[t]]
            0 <= k < ps.len() && 0 <= t < acc.len() ==> acc[t].0 != ps[k].child,
        forall|i: int, j: int|
            #![trigger ps[i], ps[j]]
            0 <= i < j < ps.len() ==> ps[i].child != ps[j].child,
    ensures
        spec_insert_all(acc, ps) == acc + entries_of_pairs(ps),
    decreases ps.len(),
{
    if ps.len() == 0 {
        assert(acc + entries_of_pairs(ps) =~= acc);
    } else {
        let rest = ps.drop_first();
        assert(forall|k: int| 0 <= k < rest.len() ==> rest[k] == ps[k + 1]);
        assert(forall|t: int| 0 <= t < acc.len() ==> (#[trigger] acc[t]).0 != ps[0].child);
        lemma_map_insert_fresh(acc, ps[0].child, ps[0].similarity);
        let acc2 = acc.push((ps[0].child, ps[0].similarity));
        assert forall|k: int, t: int|
            #![trigger rest[k], acc2[t]]
            0 <= k < rest.len() && 0 <= t < acc2.len() implies acc2[t].0 != rest[k].child by {
            if t < acc.len() {
                assert(acc2[t] == acc[t]);
            } else {
                assert(acc2[t].0 == ps[0].child);
                assert(ps[0].child != ps[k + 1].child);
            }
        }
        lemma_insert_all_fresh(acc2, rest);
        assert(acc2 + entries_of_pairs(rest) =~= acc + entries_of_pairs(ps));
    }
}

/// Building the returned map from fresh, distinct children appends their
/// entries in the service's order.
proof fn lemma_similar_map_rec_fresh(
    acc: Seq<(Seq<char>, int)>,
    canon: Seq<char>,
    sims: Seq<SimilarModel>,
)
    requires
        forall|k: int, t: int|
            #![trigger sims[k], acc[t]]
            0 <= k < sims.len() && 0 <= t < acc.len() ==> acc[t].0 != sims[k].name,
        forall|i: int, j: int|
            #![trigger sims[i], sims[j]]
            0 <= i < j < sims.len() ==> sims[i].name != sims[j].name,
    ensures
        spec_similar_map_rec(acc, canon, sims) == acc + entries_of_pairs(
            spec_payload_pairs(canon, sims),
        ),
    decreases sims.len(),
{
    if sims.len() == 0 {
        assert(acc + entries_of_pairs(spec_payload_pairs(canon, sims)) =~= acc);
    } else {
        let rest = sims.drop_first();
        assert(forall|k: int| 0 <= k < rest.len() ==> rest[k] == sims[k + 1]);
        if sims[0].name == canon {
            lemma_similar_map_rec_fresh(acc, canon, rest);
            assert(acc + entries_of_pairs(spec_payload_pairs(canon, rest)) =~= acc
                + entries_of_pairs(spec_payload_pairs(canon, sims)));
        } else {
            assert(forall|t: int| 0 <= t < acc.len() ==> (#[trigger] acc[t]).0 != sims[0].name);
            lemma_map_insert_fresh(acc, sims[0].name, sims[0].similarity);
            let acc2 = acc.push((sims[0].name, sims[0].similarity));
            assert forall|k: int, t: int|
                #![trigger rest[k], acc2[t]]
                0 <= k < rest.len() && 0 <= t < acc2.len() implies acc2[t].0 != rest[k].name by {
                if t < acc.len() {
                    assert(acc2[t] == acc[t]);
                } else {
                    assert(acc2[t].0 == sims[0].name);
                    assert(sims[0].name != sims[k + 1].name);
                }
            }
            lemma_similar_map_rec_fresh(acc2, canon, rest);
            assert(acc2 + entries_of_pairs(spec_payload_pairs(canon, rest)) =~= acc
                + entries_of_pairs(spec_payload_pairs(canon, sims)));
        }
    }
}

/// Law: the fetched order and the cached order agree. Ingesting a payload
/// whose children are distinct and ranked most-similar first — as the
/// remote service returns them — into a store holding no pairs for its
/// canonical artist makes the cached child map identical to the child map
/// the fetch itself returned: later builds read from the store exactly
/// what the network answered, entry for entry and in the same order.
pub proof fn lemma_ingest_preserves_order(m: StoreModel, a: LastfmModel)
    requires
        lastfm_wf(a),
        spec_pairs_for(m.pairs, a.canonical).len() == 0,
        spec_resolve_canonical(m, a.canonical) is Some ==> spec_resolve_canonical(
            m,
            a.canonical,
        ) == Some(a.canonical),
        forall|i: int, j: int|
            #![trigger a.similar[i], a.similar[j]]
            0 <= i < j < a.similar.len() ==> a.similar[i].name != a.similar[j].name,
        forall|i: int, j: int|
            #![trigger a.similar[i], a.similar[j]]
            0 <= i < j < a.similar.len() ==> a.similar[i].similarity
                >= a.similar[j].similarity,
    ensures
        spec_cached_map(spec_ingest(m, a), a.canonical) == Some(spec_similar_map(a)),
{
    let canon = a.canonical;
    let m1 = spec_store_artist(m, canon);
    let m2 = spec_ingest(m, a);
    lemma_ingest_canonicalizes(m, a);
    lemma_ingest_pairs_artists(m1, canon, a.similar);
    // the canonical name resolves to its own spelling: either it was just
    // recorded, or the store already held exactly this spelling
    assert(spec_resolve_canonical(m2, canon) == Some(canon)) by {
        if spec_find_artist(m.artists, lower_of(canon)) is Some {
            assert(m1.artists == m.artists);
            assert(m2.artists == m.artists);
        }
    }
    // the stored spelling shares the lookup key; pair rows are keyed by the
    // canonical string itself, which ingest used
    assert(m1.pairs == m.pairs);
    assert forall|k: int|
        0 <= k < a.similar.len() implies !spec_has_pair(
        m1.pairs,
        canon,
        (#[trigger] a.similar[k]).name,
    ) by {
        if spec_has_pair(m.pairs, canon, a.similar[k].name) {
            let w = choose|w: int|
                0 <= w < m.pairs.len() && m.pairs[w].parent == canon && m.pairs[w].child
                    == a.similar[k].name;
            lemma_pairs_for_member(m.pairs, canon, w);
        }
    }
    lemma_ingest_pairs_appends(m1, canon, a.similar);
    let payload = spec_payload_pairs(canon, a.similar);
    lemma_pairs_for_append(m.pairs, payload, canon);
    lemma_payload_pairs_parent(canon, a.similar);
    lemma_pairs_for_own(payload, canon);
    assert(spec_pairs_for(m2.pairs, canon) =~= payload);
    lemma_payload_pairs_ranked(canon, a.similar);
    crate::store::lemma_sort_desc_of_sorted(payload);
    lemma_payload_pairs_distinct(canon, a.similar);
    lemma_insert_all_fresh(Seq::empty(), payload);
    assert(Seq::<(Seq<char>, int)>::empty() + entries_of_pairs(payload) =~= entries_of_pairs(
        payload,
    ));
    lemma_similar_map_rec_fresh(Seq::empty(), canon, a.similar);
    assert(spec_cached_map(m2, canon) == Some(
        spec_insert_all(Seq::empty(), spec_sort_desc(spec_pairs_for(m2.pairs, canon))),
    ));
}

} // verus!
