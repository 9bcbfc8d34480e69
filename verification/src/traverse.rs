//! The paginated collection traverser: maps one page of raw listing items to
//! occurrences and parses the opaque continuation cursor that links pages.
//!
//! A cursor is an opaque byte string (in practice a listing URL) from which
//! three fields are read: the source collection identifier after the
//! `/playlists/` marker, and the numeric `offset=` and `limit=` query
//! values. A failure to read any field is fatal to that collection's
//! traversal and is reported, never silently truncated.

use vstd::prelude::*;

use crate::model::PlayableOccurrence;
use crate::model::TrackRef;

verus! {

/// Why an opaque cursor could not be read.
#[derive(Clone, Copy, PartialEq, Eq, Structural, Debug)]
pub enum CursorParseError {
    /// No collection identifier follows the `/playlists/` marker.
    MissingCollectionId,
    /// The `offset=` field is absent, empty, or too large.
    InvalidOffset,
    /// The `limit=` field is absent, empty, or too large.
    InvalidLimit,
}

/// The structured continuation descriptor read out of an opaque cursor:
/// which collection to keep reading, and from where.
#[derive(Clone, Debug, PartialEq, Eq)]
pub struct Cursor {
    /// The source collection the next page belongs to.
    pub collection_id: Vec<u8>,
    /// How many items to skip when requesting the next page.
    pub offset: u32,
    /// How many items to request per page.
    pub limit: u32,
}

/// The bytes of `/playlists/`, the marker before the collection identifier.
pub open spec fn id_marker() -> Seq<u8> {
    seq![47u8, 112u8, 108u8, 97u8, 121u8, 108u8, 105u8, 115u8, 116u8, 115u8, 47u8]
}

/// The bytes of `offset=`.
pub open spec fn offset_marker() -> Seq<u8> {
    seq![111u8, 102u8, 102u8, 115u8, 101u8, 116u8, 61u8]
}

/// The bytes of `limit=`.
pub open spec fn limit_marker() -> Seq<u8> {
    seq![108u8, 105u8, 109u8, 105u8, 116u8, 61u8]
}

/// An ASCII decimal digit.
pub open spec fn is_digit(b: u8) -> bool {
    48 <= b <= 57
}

/// A byte allowed in a collection identifier: an ASCII letter or digit.
pub open spec fn is_id_byte(b: u8) -> bool {
    is_digit(b) || (65 <= b <= 90) || (97 <= b <= 122)
}

/// `pat` occurs in `h` starting at position `i`.
pub open spec fn match_at(h: Seq<u8>, pat: Seq<u8>, i: int) -> bool {
    0 <= i && i + pat.len() <= h.len() && h.subrange(i, i + pat.len()) == pat
}

/// The first position at or after `i` where `pat` occurs in `h`.
pub open spec fn find_from(h: Seq<u8>, pat: Seq<u8>, i: int) -> Option<int>
    decreases h.len() - i,
{
    if i < 0 || i + pat.len() > h.len() {
        None
    } else if pat.len() == 0 || match_at(h, pat, i) {
        Some(i)
    } else {
        find_from(h, pat, i + 1)
    }
}

/// The first position where `pat` occurs in `h`.
pub open spec fn find_first(h: Seq<u8>, pat: Seq<u8>) -> Option<int> {
    find_from(h, pat, 0)
}

/// Where the run of digit bytes starting at `i` ends.
pub open spec fn digit_run_end(h: Seq<u8>, i: int) -> int
    decreases h.len() - i
        when 0 <= i <= h.len()
{
    if i < h.len() && is_digit(h[i]) {
        digit_run_end(h, i + 1)
    } else {
        i
    }
}

/// Where the run of identifier bytes starting at `i` ends.
pub open spec fn id_run_end(h: Seq<u8>, i: int) -> int
    decreases h.len() - i
        when 0 <= i <= h.len()
{
    if i < h.len() && is_id_byte(h[i]) {
        id_run_end(h, i + 1)
    } else {
        i
    }
}

/// The value of a string of decimal digit bytes.
pub open spec fn dec_value(s: Seq<u8>) -> int
    decreases s.len(),
{
    if s.len() == 0 {
        0
    } else {
        10 * dec_value(s.drop_last()) + s.last() - 48
    }
}

/// The collection identifier field of a cursor: the nonempty run of
/// identifier bytes after the first `/playlists/` marker.
pub open spec fn id_field(h: Seq<u8>) -> Option<Seq<u8>> {
    match find_first(h, id_marker()) {
        None => None,
        Some(p) => {
            let start = p + id_marker().len();
            let end = id_run_end(h, start);
            if end == start {
                None
            } else {
                Some(h.subrange(start, end))
            }
        },
    }
}

/// The numeric field after the first occurrence of `marker`: the value of
/// the nonempty digit run that follows it.
pub open spec fn num_field(h: Seq<u8>, marker: Seq<u8>) -> Option<int> {
    match find_first(h, marker) {
        None => None,
        Some(p) => {
            let start = p + marker.len();
            let end = digit_run_end(h, start);
            if end == start {
                None
            } else {
                Some(dec_value(h.subrange(start, end)))
            }
        },
    }
}

/// What reading a cursor yields: its three fields, or the first field that
/// could not be read, checked in the order identifier, offset, limit.
pub open spec fn cursor_spec(h: Seq<u8>) -> Result<(Seq<u8>, int, int), CursorParseError> {
    match id_field(h) {
        None => Err(CursorParseError::MissingCollectionId),
        Some(id) => match num_field(h, offset_marker()) {
            None => Err(CursorParseError::InvalidOffset),
            Some(off) => if off > u32::MAX as int {
                Err(CursorParseError::InvalidOffset)
            } else {
                match num_field(h, limit_marker()) {
                    None => Err(CursorParseError::InvalidLimit),
                    Some(lim) => if lim > u32::MAX as int {
                        Err(CursorParseError::InvalidLimit)
                    } else {
                        Ok((id, off, lim))
                    },
                }
            },
        },
    }
}

/// A successful find points at a genuine first match, inside bounds.
proof fn lemma_find_from_ok(h: Seq<u8>, pat: Seq<u8>, i: int)
    requires
        0 <= i,
    ensures
        match find_from(h, pat, i) {
            Some(p) => i <= p && p + pat.len() <= h.len(),
            None => true,
        },
    decreases h.len() - i,
{
    if i + pat.len() <= h.len() && pat.len() > 0 && !match_at(h, pat, i) {
        lemma_find_from_ok(h, pat, i + 1);
    }
}

/// A digit run stays inside the byte string and is made of digits.
proof fn lemma_digit_run_end(h: Seq<u8>, i: int)
    requires
        0 <= i <= h.len(),
    ensures
        i <= digit_run_end(h, i) <= h.len(),
        forall|k: int| i <= k < digit_run_end(h, i) ==> is_digit(#[trigger] h[k]),
    decreases h.len() - i,
{
    if i < h.len() && is_digit(h[i]) {
        lemma_digit_run_end(h, i + 1);
    }
}

/// An identifier run stays inside the byte string.
proof fn lemma_id_run_end(h: Seq<u8>, i: int)
    requires
        0 <= i <= h.len(),
    ensures
        i <= id_run_end(h, i) <= h.len(),
    decreases h.len() - i,
{
    if i < h.len() && is_id_byte(h[i]) {
        lemma_id_run_end(h, i + 1);
    }
}

/// The value of a digit string only grows as more digits follow.
proof fn lemma_dec_value_grows(h: Seq<u8>, a: int, m: int, b: int)
    requires
        0 <= a <= m <= b <= h.len(),
        forall|k: int| a <= k < b ==> is_digit(#[trigger] h[k]),
    ensures
        0 <= dec_value(h.subrange(a, m)) <= dec_value(h.subrange(a, b)),
    decreases b - m,
{
    if m == a {
        assert(h.subrange(a, a) =~= Seq::<u8>::empty());
        lemma_dec_value_nonneg(h, a, b);
    } else {
        lemma_dec_value_nonneg(h, a, m);
        if m < b {
            lemma_dec_value_grows(h, a, m + 1, b);
            assert(h.subrange(a, m + 1).drop_last() =~= h.subrange(a, m));
            assert(h.subrange(a, m + 1).last() == h[m]);
        }
    }
}

/// A string of digits has a nonnegative value.
proof fn lemma_dec_value_nonneg(h: Seq<u8>, a: int, b: int)
    requires
        0 <= a <= b <= h.len(),
        forall|k: int| a <= k < b ==> is_digit(#[trigger] h[k]),
    ensures
        dec_value(h.subrange(a, b)) >= 0,
    decreases b - a,
{
    if a < b {
        lemma_dec_value_nonneg(h, a, b - 1);
        assert(h.subrange(a, b).drop_last() =~= h.subrange(a, b - 1));
        assert(h.subrange(a, b).last() == h[b - 1]);
    } else {
        assert(h.subrange(a, b) =~= Seq::<u8>::empty());
    }
}

/// Finds the first occurrence of `pat` in `h`.
fn find_sub(h: &[u8], pat: &[u8]) -> (r: Option<usize>)
    ensures
        find_first(h@, pat@) == match r {
            Some(p) => Some(p as int),
            None => None::<int>,
        },
{
    if pat.len() > h.len() {
        return None;
    }
    let hn = h.len();
    let mut i: usize = 0;
    while i <= h.len() - pat.len()
        invariant
            hn == h@.len(),
            pat.len() <= h@.len(),
            0 <= i <= h@.len() - pat@.len() + 1,
            find_from(h@, pat@, 0) == find_from(h@, pat@, i as int),
        decreases h@.len() - i,
    {
        let mut j: usize = 0;
        while j < pat.len() && h[i + j] == pat[j]
            invariant
                hn == h@.len(),
                pat.len() <= h@.len(),
                0 <= i <= h@.len() - pat@.len(),
                0 <= j <= pat@.len(),
                forall|k: int| 0 <= k < j ==> h@[i + k] == #[trigger] pat@[k],
            decreases pat@.len() - j,
        {
            j = j + 1;
        }
        if j == pat.len() {
            proof {
                assert(h@.subrange(i as int, i + pat@.len()) =~= pat@);
                assert(match_at(h@, pat@, i as int));
            }
            return Some(i);
        }
        proof {
            let sub = h@.subrange(i as int, i + pat@.len());
            assert(sub[j as int] == h@[i + j]);
            assert(sub[j as int] != pat@[j as int]);
            assert(!match_at(h@, pat@, i as int));
        }
        i = i + 1;
    }
    proof {
        assert(i + pat@.len() > h@.len());
    }
    None
}

/// Where the digit run starting at `start` ends.
fn scan_digits(h: &[u8], start: usize) -> (end: usize)
    requires
        start <= h@.len(),
    ensures
        end == digit_run_end(h@, start as int),
        start <= end <= h@.len(),
        forall|k: int| start <= k < end ==> is_digit(#[trigger] h@[k]),
{
    let mut end: usize = start;
    while end < h.len() && h[end] >= 48 && h[end] <= 57
        invariant
            start <= end <= h@.len(),
            digit_run_end(h@, start as int) == digit_run_end(h@, end as int),
            forall|k: int| start <= k < end ==> is_digit(#[trigger] h@[k]),
        decreases h@.len() - end,
    {
        end = end + 1;
    }
    end
}

/// Where the identifier run starting at `start` ends.
fn scan_id(h: &[u8], start: usize) -> (end: usize)
    requires
        start <= h@.len(),
    ensures
        end == id_run_end(h@, start as int),
        start <= end <= h@.len(),
{
    let mut end: usize = start;
    while end < h.len() && (h[end] >= 48 && h[end] <= 57 || h[end] >= 65 && h[end] <= 90 || h[end]
        >= 97 && h[end] <= 122)
        invariant
            start <= end <= h@.len(),
            id_run_end(h@, start as int) == id_run_end(h@, end as int),
        decreases h@.len() - end,
    {
        end = end + 1;
    }
    end
}

/// The value of the digit run `h[start..end]`, or `None` when it does not
/// fit in 32 bits.
fn parse_decimal(h: &[u8], start: usize, end: usize) -> (r: Option<u32>)
    requires
        start <= end <= h@.len(),
        forall|k: int| start <= k < end ==> is_digit(#[trigger] h@[k]),
    ensures
        match r {
            Some(v) => v as int == dec_value(h@.subrange(start as int, end as int)),
            None => dec_value(h@.subrange(start as int, end as int)) > u32::MAX as int,
        },
{
    let mut acc: u64 = 0;
    let mut k: usize = start;
    proof {
        assert(h@.subrange(start as int, start as int) =~= Seq::<u8>::empty());
    }
    while k < end
        invariant
            start <= k <= end <= h@.len(),
            forall|kk: int| start <= kk < end ==> is_digit(#[trigger] h@[kk]),
            acc as int == dec_value(h@.subrange(start as int, k as int)),
            acc <= u32::MAX as u64,
        decreases end - k,
    {
        let d = h[k];
        acc = acc * 10 + (d - 48) as u64;
        proof {
            assert(h@.subrange(start as int, k + 1).drop_last() =~= h@.subrange(
                start as int,
                k as int,
            ));
            assert(h@.subrange(start as int, k + 1).last() == h@[k as int]);
        }
        k = k + 1;
        if acc > u32::MAX as u64 {
            proof {
                lemma_dec_value_grows(h@, start as int, k as int, end as int);
            }
            return None;
        }
    }
    Some(acc as u32)
}

/// Reads the three continuation fields out of an opaque cursor: the source
/// collection identifier after `/playlists/`, and the numeric `offset=` and
/// `limit=` values, exactly as `cursor_spec` describes. The first unreadable
/// field decides the error.
pub fn parse_cursor(href: &[u8]) -> (r: Result<Cursor, CursorParseError>)
    ensures
        match (r, cursor_spec(href@)) {
            (Ok(c), Ok((id, off, lim))) => c.collection_id@ == id && c.offset as int == off
                && c.limit as int == lim,
            (Err(e1), Err(e2)) => e1 == e2,
            _ => false,
        },
{
    let mut id_pat: Vec<u8> = Vec::new();
    id_pat.push(47);
    id_pat.push(112);
    id_pat.push(108);
    id_pat.push(97);
    id_pat.push(121);
    id_pat.push(108);
    id_pat.push(105);
    id_pat.push(115);
    id_pat.push(116);
    id_pat.push(115);
    id_pat.push(47);
    proof {
        assert(id_pat@ =~= id_marker());
    }
    let p = match find_sub(href, id_pat.as_slice()) {
        None => {
            return Err(CursorParseError::MissingCollectionId);
        },
        Some(p) => p,
    };
    proof {
        lemma_find_from_ok(href@, id_marker(), 0);
        assert(p + id_pat@.len() <= href@.len());
        assert(href@.len() == href.len());
    }
    let start = p + id_pat.len();
    let end = scan_id(href, start);
    if end == start {
        return Err(CursorParseError::MissingCollectionId);
    }
    let mut id: Vec<u8> = Vec::new();
    let mut k: usize = start;
    proof {
        assert(id@ =~= href@.subrange(start as int, start as int));
    }
    while k < end
        invariant
            start <= k <= end <= href@.len(),
            id@ == href@.subrange(start as int, k as int),
        decreases end - k,
    {
        id.push(href[k]);
        proof {
            assert(href@.subrange(start as int, k + 1) =~= href@.subrange(
                start as int,
                k as int,
            ).push(href@[k as int]));
        }
        k = k + 1;
    }
    let offset = match read_num_field(href, 0) {
        None => {
            return Err(CursorParseError::InvalidOffset);
        },
        Some(v) => v,
    };
    let limit = match read_num_field(href, 1) {
        None => {
            return Err(CursorParseError::InvalidLimit);
        },
        Some(v) => v,
    };
    Ok(Cursor { collection_id: id, offset, limit })
}

/// Reads the numeric field after `offset=` (when `which` is 0) or `limit=`
/// (otherwise): `None` when the marker is absent, the digit run after it is
/// empty, or the value does not fit in 32 bits.
fn read_num_field(href: &[u8], which: u8) -> (r: Option<u32>)
    ensures
        ({
            let marker = if which == 0 {
                offset_marker()
            } else {
                limit_marker()
            };
            match (r, num_field(href@, marker)) {
                (Some(v), Some(n)) => v as int == n,
                (None, Some(n)) => n > u32::MAX as int,
                (None, None) => true,
                _ => false,
            }
        }),
{
    let mut pat: Vec<u8> = Vec::new();
    if which == 0 {
        pat.push(111);
        pat.push(102);
        pat.push(102);
        pat.push(115);
        pat.push(101);
        pat.push(116);
        pat.push(61);
        proof {
            assert(pat@ =~= offset_marker());
        }
    } else {
        pat.push(108);
        pat.push(105);
        pat.push(109);
        pat.push(105);
        pat.push(116);
        pat.push(61);
        proof {
            assert(pat@ =~= limit_marker());
        }
    }
    let p = match find_sub(href, pat.as_slice()) {
        None => {
            return None;
        },
        Some(p) => p,
    };
    proof {
        lemma_find_from_ok(href@, pat@, 0);
        assert(p + pat@.len() <= href@.len());
        assert(href@.len() == href.len());
    }
    let start = p + pat.len();
    let end = scan_digits(href, start);
    if end == start {
        return None;
    }
    parse_decimal(href, start, end)
}

/// What a raw listing item can carry as its playable payload.
#[derive(Clone, Debug)]
pub enum MediaPayload {
    /// A resolvable catalog track.
    CatalogTrack(TrackRef),
    /// Some other media kind; it has no track identity.
    NonTrackMedia,
}

/// One raw item of a listing page, before it becomes an occurrence.
#[derive(Clone, Debug)]
pub struct RawItem {
    /// When the item was added to the collection, if known.
    pub added_at: Option<i64>,
    /// Who added it, if known.
    pub contributor: Option<String>,
    /// Whether the item lives only in the user's local library.
    pub is_local: bool,
    /// The playable payload, absent when the item could not be resolved.
    pub payload: Option<MediaPayload>,
}

/// One page of a paginated listing: its items, and the opaque cursor of the
/// following page when there is one.
#[derive(Clone, Debug)]
pub struct Page {
    pub items: Vec<RawItem>,
    pub next: Option<Vec<u8>>,
}

/// How a raw item becomes an occurrence: an item with no payload, or whose
/// payload is not a catalog track, keeps `track_ref = None` and is filtered
/// by downstream consumers rather than reported as an error.
pub open spec fn spec_map_raw_item(it: RawItem) -> PlayableOccurrence {
    PlayableOccurrence {
        added_at: it.added_at,
        contributor: it.contributor,
        is_local_only: it.is_local,
        track_ref: match it.payload {
            Some(MediaPayload::CatalogTrack(t)) => Some(t),
            _ => None,
        },
    }
}

/// Turns one raw listing item into an occurrence, per `spec_map_raw_item`.
pub fn map_raw_item(it: RawItem) -> (o: PlayableOccurrence)
    ensures
        o == spec_map_raw_item(it),
{
    let track_ref = match it.payload {
        Some(MediaPayload::CatalogTrack(t)) => Some(t),
        Some(MediaPayload::NonTrackMedia) => None,
        None => None,
    };
    PlayableOccurrence {
        added_at: it.added_at,
        contributor: it.contributor,
        is_local_only: it.is_local,
        track_ref,
    }
}

/// Consumes one page of a listing: appends every item of the page to `acc`
/// as an occurrence, in page order, then reads the continuation cursor.
/// Returns the parsed cursor of the next page, `None` when the page is the
/// last, or the cursor's parse error, which ends this collection's
/// traversal.
pub fn ingest_page(acc: &mut Vec<PlayableOccurrence>, page: Page) -> (r: Result<
    Option<Cursor>,
    CursorParseError,
>)
    ensures
        final(acc)@ == old(acc)@ + page.items@.map_values(|it: RawItem| spec_map_raw_item(it)),
        match page.next {
            None => r == Ok::<Option<Cursor>, CursorParseError>(None),
            Some(href) => match cursor_spec(href@) {
                Ok((id, off, lim)) => match r {
                    Ok(Some(c)) => c.collection_id@ == id && c.offset as int == off
                        && c.limit as int == lim,
                    _ => false,
                },
                Err(e) => r == Err::<Option<Cursor>, CursorParseError>(e),
            },
        },
{
    let ghost items0 = page.items@;
    let mut rest = page.items;
    let ghost mut i: int = 0;
    proof {
        assert(rest@ =~= items0.skip(0));
        assert(acc@ =~= old(acc)@ + items0.take(0).map_values(
            |it: RawItem| spec_map_raw_item(it),
        ));
    }
    while rest.len() > 0
        invariant
            0 <= i <= items0.len(),
            rest@ == items0.skip(i),
            acc@ == old(acc)@ + items0.take(i).map_values(|it: RawItem| spec_map_raw_item(it)),
        decreases rest@.len(),
    {
        let it = rest.remove(0);
        proof {
            assert(it == items0[i]);
            assert(rest@ =~= items0.skip(i + 1));
        }
        let o = map_raw_item(it);
        acc.push(o);
        proof {
            assert(acc@ =~= old(acc)@ + items0.take(i + 1).map_values(
                |it: RawItem| spec_map_raw_item(it),
            ));
            i = i + 1;
        }
    }
    proof {
        assert(i == items0.len());
        assert(items0.take(i) =~= items0);
    }
    match page.next {
        None => Ok(None),
        Some(href) => match parse_cursor(href.as_slice()) {
            Ok(c) => Ok(Some(c)),
            Err(e) => Err(e),
        },
    }
}

} // verus!
