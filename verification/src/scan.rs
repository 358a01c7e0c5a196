//! Finding the splice marker inside a recording.
//!
//! A recording is searched window by window, 8192 bytes at a time.
//! Consecutive windows share as many bytes as the marker is long, less one,
//! so that a marker is seen whole by exactly one window wherever it starts.
//! The scanner takes a window in pieces of a size that it holds at once, and
//! the pieces share bytes in the same way.
use crate::error::KcdError;
use vstd::prelude::*;
use vstd::slice::slice_subrange;

verus! {

/// The marker as the scanner's pattern text: the bytes of `KCRMOVIE` in hexadecimal.
pub const MARKER_PATTERN: &'static str = "4B 43 52 4D 4F 56 49 45";

/// Distance between the starts of two consecutive windows. A window reaches seven bytes
/// into the next, so that it holds in full every marker that starts in it.
pub const WINDOW_STRIDE: usize = 8192;

/// Distance between the starts of two consecutive pieces of a window.
pub const PIECE_STRIDE: usize = 1024;

/// Most bytes that one piece holds: a stride, and the seven bytes that it shares with the
/// next piece.
pub const PIECE_LEN: usize = 1031;

/// Longest input that the scanner takes in at once. The scanner reads into a buffer of
/// 2048 bytes and refills it when it has come within one marker's length of its end, so
/// an input of 2031 bytes and its eight bytes of overhang are done before that.
pub const SCAN_LIMIT: usize = 2031;

/// The eight marker bytes, `KCRMOVIE` in ASCII.
pub open spec fn marker() -> Seq<u8> {
    seq![0x4Bu8, 0x43u8, 0x52u8, 0x4Du8, 0x4Fu8, 0x56u8, 0x49u8, 0x45u8]
}

/// The marker stands in `data` at offset `i`.
pub open spec fn marker_at(data: Seq<u8>, i: int) -> bool {
    &&& 0 <= i
    &&& i + 8 <= data.len()
    &&& data[i] == 0x4Bu8
    &&& data[i + 1] == 0x43u8
    &&& data[i + 2] == 0x52u8
    &&& data[i + 3] == 0x4Du8
    &&& data[i + 4] == 0x4Fu8
    &&& data[i + 5] == 0x56u8
    &&& data[i + 6] == 0x49u8
    &&& data[i + 7] == 0x45u8
}

/// The marker stands at `i` where the eight bytes from `i` on are the marker's.
pub proof fn lemma_marker_at(data: Seq<u8>, i: int)
    ensures
        marker_at(data, i) <==> 0 <= i && i + 8 <= data.len() && data.subrange(i, i + 8)
            == marker(),
{
    if 0 <= i && i + 8 <= data.len() {
        let s = data.subrange(i, i + 8);
        if marker_at(data, i) {
            assert(s =~= marker());
        }
        if s == marker() {
            assert(forall|k: int| 0 <= k < 8 ==> data[i + k] == s[k]);
        }
    }
}

/// `hits` lists every offset at which the marker stands in `window`, in ascending order.
pub open spec fn lists_markers(window: Seq<u8>, hits: Seq<usize>) -> bool {
    &&& forall|j: int| 0 <= j < hits.len() ==> marker_at(window, #[trigger] hits[j] as int)
    &&& forall|j: int, k: int| 0 <= j < k < hits.len() ==> hits[j] < hits[k]
    &&& forall|i: int| #[trigger]
        marker_at(window, i) ==> exists|j: int| 0 <= j < hits.len() && #[trigger] hits[j] == i
}

/// The marker stands at `p` and nowhere before.
pub open spec fn is_first_marker(data: Seq<u8>, p: int) -> bool {
    &&& marker_at(data, p)
    &&& forall|i: int| #[trigger] marker_at(data, i) ==> p <= i
}

/// Another marker starts in the window in which the marker at `p` starts.
pub open spec fn crowded(data: Seq<u8>, p: int) -> bool {
    exists|q: int|
        q != p && #[trigger] marker_at(data, q) && q / (WINDOW_STRIDE as int) == p / (
        WINDOW_STRIDE as int)
}

/// Where the splice point of a recording lies.
///
/// The first window in which a marker starts decides: a single marker
/// there gives its offset, more than one is ambiguous. Later windows are
/// not looked at.
pub open spec fn locate(data: Seq<u8>) -> Result<int, KcdError> {
    if !exists|i: int| marker_at(data, i) {
        Err(KcdError::MarkerNotFound)
    } else {
        let p = choose|p: int| is_first_marker(data, p);
        if crowded(data, p) {
            Err(KcdError::AmbiguousMarker)
        } else {
            Ok(p)
        }
    }
}

/// The error of `patternscan`, which is handed on unread.
#[verifier::external_type_specification]
#[verifier::external_body]
pub struct ExScanError(patternscan::Error);

/// `patternscan::scan`, reading from a slice in memory.
///
/// Not proved, but claimed of it for the marker's pattern text and an input of
/// `SCAN_LIMIT` bytes at most: the scan succeeds, and its result lists every offset at
/// which the eight marker bytes stand in the input, in ascending order.
///
/// It succeeds because the pattern is eight hexadecimal bytes, which the scanner parses
/// and finds short enough, and because reading from a slice copies and cannot fail. It
/// finds the offsets because it takes such an input in with its first read, and then
/// compares the pattern at each offset in turn. It goes on for eight offsets beyond the
/// input's end, where its buffer holds zero bytes; no byte of the marker is zero, so
/// nothing is found there.
#[verifier::external_body]
fn scan_window(window: &[u8], pattern: &str) -> (found: Result<Vec<usize>, patternscan::Error>)
    requires
        pattern@ == MARKER_PATTERN@,
        window@.len() <= SCAN_LIMIT,
    ensures
        found is Ok,
        lists_markers(window@, found->Ok_0@),
{
    patternscan::scan(window, pattern)
}

/// What has been seen of the recording before `base`: no marker at all, or the one marker
/// `found`, which starts in the window in which `base` lies.
pub open spec fn seen(data: Seq<u8>, base: int, found: Option<usize>) -> bool {
    match found {
        None => forall|i: int| i < base ==> !marker_at(data, i),
        Some(p) => {
            &&& marker_at(data, p as int)
            &&& p < base
            &&& p as int / (WINDOW_STRIDE as int) == base / (WINDOW_STRIDE as int)
            &&& forall|i: int| i < base && marker_at(data, i) ==> i == p
        },
    }
}

/// Offset of the marker in a recording.
///
/// The recording is taken in pieces that the scanner can hold at once. Each piece reaches
/// seven bytes into the next, and eight pieces make a window.
pub fn find_kcrmovie_position(data: &[u8]) -> (r: Result<usize, KcdError>)
    ensures
        match locate(data@) {
            Ok(p) => r == Ok::<usize, KcdError>(p as usize) && marker_at(data@, p),
            Err(e) => r == Err::<usize, KcdError>(e),
        },
{
    let len = data.len();
    let mut base: usize = 0;
    let mut found: Option<usize> = None;
    while base < len
        invariant
            len == data@.len(),
            base <= len,
            base as int % (PIECE_STRIDE as int) == 0,
            seen(data@, base as int, found),
        decreases len - base,
    {
        let rest = len - base;
        let end = if rest > PIECE_LEN {
            base + PIECE_LEN
        } else {
            len
        };
        let piece = slice_subrange(data, base, end);
        let hits = match scan_window(piece, MARKER_PATTERN) {
            Ok(hits) => hits,
            Err(_) => {
                return Err(KcdError::IoFailure);
            },
        };
        proof {
            lemma_piece(data@, piece@, hits@, base as int, end as int);
        }
        if hits.len() > 1 || (hits.len() == 1 && found.is_some()) {
            proof {
                let p = match found {
                    Some(p) => p as int,
                    None => base + hits@[0],
                };
                let q = match found {
                    Some(_) => base + hits@[0],
                    None => base + hits@[1],
                };
                assert(marker_at(piece@, hits@[0] as int));
                assert(found is None ==> marker_at(piece@, hits@[1] as int));
                assert(marker_at(data@, q));
                assert(is_first_marker(data@, p));
                lemma_first_marker_unique(data@, p);
                assert(crowded(data@, p));
            }
            return Err(KcdError::AmbiguousMarker);
        }
        if hits.len() == 1 {
            assert(marker_at(piece@, hits@[0] as int));
            found = Some(base + hits[0]);
        }
        if rest <= PIECE_STRIDE {
            proof {
                assert forall|i: int| marker_at(data@, i) implies found == Some(i as usize) by {
                    if i >= base {
                        assert(marker_at(piece@, i - base));
                    }
                }
            }
            match found {
                Some(p) => {
                    proof {
                        assert(is_first_marker(data@, p as int));
                        lemma_first_marker_unique(data@, p as int);
                        assert(!crowded(data@, p as int));
                    }
                    return Ok(p);
                },
                None => {
                    return Err(KcdError::MarkerNotFound);
                },
            }
        }
        proof {
            assert forall|i: int| i < base + PIECE_STRIDE && marker_at(data@, i) implies found
                == Some(i as usize) by {
                if i >= base {
                    assert(marker_at(piece@, i - base));
                }
            }
        }
        base = base + PIECE_STRIDE;
        if base % WINDOW_STRIDE == 0 {
            if let Some(p) = found {
                proof {
                    assert(is_first_marker(data@, p as int));
                    lemma_first_marker_unique(data@, p as int);
                    assert(!crowded(data@, p as int)) by {
                        assert forall|q: int| q != p && marker_at(data@, q) implies q / (
                        WINDOW_STRIDE as int) != p as int / (WINDOW_STRIDE as int) by {
                            assert(q >= base);
                        }
                    }
                }
                return Ok(p);
            }
        }
    }
    match found {
        Some(p) => {
            proof {
                assert(is_first_marker(data@, p as int));
                lemma_first_marker_unique(data@, p as int);
                assert(!crowded(data@, p as int));
            }
            Ok(p)
        },
        None => Err(KcdError::MarkerNotFound),
    }
}

/// What the hits of a piece say of the recording: the markers that start within the
/// piece's stride are the hits, each moved by the piece's offset, in ascending order.
proof fn lemma_piece(data: Seq<u8>, piece: Seq<u8>, hits: Seq<usize>, base: int, end: int)
    requires
        0 <= base <= end <= data.len(),
        piece == data.subrange(base, end),
        lists_markers(piece, hits),
        end - base <= PIECE_LEN,
        end == data.len() || end == base + PIECE_LEN,
    ensures
        forall|h: int|
            #[trigger] marker_at(piece, h) <==> 0 <= h && marker_at(data, base + h) && base + h + 8
                <= end,
        forall|i: int|
            base <= i < base + PIECE_STRIDE && #[trigger] marker_at(data, i) ==> marker_at(
                piece,
                i - base,
            ),
        forall|j: int| 0 <= j < hits.len() ==> base <= base + #[trigger] hits[j] < base + PIECE_STRIDE,
        hits.len() >= 1 ==> forall|i: int|
            base <= i && #[trigger] marker_at(data, i) ==> base + hits[0] <= i,
        hits.len() == 1 ==> forall|i: int|
            base <= i < base + PIECE_STRIDE && #[trigger] marker_at(data, i) ==> i == base + hits[0],
{
    assert forall|h: int| #[trigger]
        marker_at(piece, h) <==> 0 <= h && marker_at(data, base + h) && base + h + 8 <= end by {}
    assert forall|j: int| 0 <= j < hits.len() implies base <= base + #[trigger] hits[j] < base
        + PIECE_STRIDE by {
        assert(marker_at(piece, hits[j] as int));
    }
    if hits.len() >= 1 {
        assert forall|i: int| base <= i && #[trigger] marker_at(data, i) implies base + hits[0]
            <= i by {
            if i < base + hits[0] {
                assert(marker_at(piece, hits[0] as int));
                assert(marker_at(piece, i - base));
                let j = choose|j: int| 0 <= j < hits.len() && hits[j] == i - base;
                assert(hits[0] <= hits[j]);
            }
        }
    }
    if hits.len() == 1 {
        assert forall|i: int|
            base <= i < base + PIECE_STRIDE && #[trigger] marker_at(data, i) implies i == base
            + hits[0] by {
            assert(marker_at(piece, i - base));
        }
    }
}

/// A recording has one first marker at most, and `locate` speaks of it.
proof fn lemma_first_marker_unique(data: Seq<u8>, p: int)
    requires
        is_first_marker(data, p),
    ensures
        (choose|q: int| is_first_marker(data, q)) == p,
        exists|i: int| marker_at(data, i),
{
    let q = choose|q: int| is_first_marker(data, q);
    assert(is_first_marker(data, q));
    assert(marker_at(data, p));
    assert(marker_at(data, q));
}

/// Where a marker stands, some marker stands first.
pub proof fn lemma_first_marker_exists(data: Seq<u8>, i: int)
    requires
        marker_at(data, i),
    ensures
        exists|p: int| is_first_marker(data, p),
    decreases i,
{
    if exists|j: int| j < i && marker_at(data, j) {
        let j = choose|j: int| j < i && marker_at(data, j);
        lemma_first_marker_exists(data, j);
    } else {
        assert(is_first_marker(data, i));
    }
}

/// What `locate` finds is the first marker, and it has its window to itself.
pub proof fn lemma_located(data: Seq<u8>)
    ensures
        locate(data) matches Ok(p) ==> is_first_marker(data, p) && !crowded(data, p),
        locate(data) == Err::<int, KcdError>(KcdError::MarkerNotFound) <==> !exists|i: int|
            marker_at(data, i),
        locate(data) == Err::<int, KcdError>(KcdError::AmbiguousMarker) <==> exists|p: int|
            is_first_marker(data, p) && crowded(data, p),
{
    if exists|i: int| marker_at(data, i) {
        let i = choose|i: int| marker_at(data, i);
        lemma_first_marker_exists(data, i);
        let p = choose|p: int| is_first_marker(data, p);
        assert forall|q: int| is_first_marker(data, q) implies q == p by {
            lemma_first_marker_unique(data, q);
        }
    } else {
        assert forall|p: int| !is_first_marker(data, p) by {}
    }
}

/// A recording that holds the marker once, at `k`, has it located at `k`, wherever `k`
/// lies with respect to the windows.
pub proof fn lemma_single_marker_located(data: Seq<u8>, k: int)
    requires
        marker_at(data, k),
        forall|i: int| marker_at(data, i) ==> i == k,
    ensures
        locate(data) == Ok::<int, KcdError>(k),
{
    assert(is_first_marker(data, k));
    lemma_first_marker_unique(data, k);
}

/// A recording whose first marker shares its window with another marker is ambiguous.
pub proof fn lemma_crowded_window_ambiguous(data: Seq<u8>, p: int, q: int)
    requires
        is_first_marker(data, p),
        marker_at(data, q),
        q != p,
        q / (WINDOW_STRIDE as int) == p / (WINDOW_STRIDE as int),
    ensures
        locate(data) == Err::<int, KcdError>(KcdError::AmbiguousMarker),
{
    lemma_first_marker_unique(data, p);
    assert(crowded(data, p));
}

/// A recording without a marker is told apart from one with the marker at offset 0.
pub proof fn lemma_no_marker_not_found(data: Seq<u8>)
    requires
        forall|i: int| !marker_at(data, i),
    ensures
        locate(data) == Err::<int, KcdError>(KcdError::MarkerNotFound),
{
}

} // verus!
