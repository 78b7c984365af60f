//! Stream verifier: checks position-tagged frames against the expected
//! payload, localizes the first divergence inside a frame, and performs a
//! resynchronization search over the whole expected payload when a frame
//! does not match at its recorded offset.

use vstd::prelude::*;

verus! {

use crate::framer::concat_chunks;
use crate::framer::decode_run;

/// The part of `s` that starts at `offset`: what a frame tagged `offset`
/// is compared against. Empty when `offset` lies at or past the end.
pub open spec fn suffix_from(s: Seq<u8>, offset: int) -> Seq<u8> {
    if 0 <= offset <= s.len() {
        s.subrange(offset, s.len() as int)
    } else {
        Seq::<u8>::empty()
    }
}

/// The index of the first position where `a` and `b` differ, comparing up
/// to the shorter of the two; `None` when they agree on that whole range.
pub open spec fn first_diff(a: Seq<u8>, b: Seq<u8>) -> Option<int>
    decreases a.len(),
{
    if a.len() == 0 || b.len() == 0 {
        None
    } else if a[0] != b[0] {
        Some(0int)
    } else {
        match first_diff(a.drop_first(), b.drop_first()) {
            Some(j) => Some(j + 1),
            None => None,
        }
    }
}

/// `n` occurs verbatim in `h` at position `p`.
pub open spec fn occurs_at(h: Seq<u8>, n: Seq<u8>, p: int) -> bool {
    &&& 0 <= p
    &&& p + n.len() <= h.len()
    &&& h.subrange(p, p + n.len() as int) == n
}

/// The first position at or after `p` where `n` occurs verbatim in `h`,
/// scanning upward; `None` when there is none.
pub open spec fn first_occurrence_from(h: Seq<u8>, n: Seq<u8>, p: int) -> Option<int>
    decreases h.len() - p,
{
    if p < 0 || p + n.len() > h.len() {
        None
    } else if h.subrange(p, p + n.len() as int) == n {
        Some(p)
    } else if p >= h.len() {
        None
    } else {
        first_occurrence_from(h, n, p + 1)
    }
}

/// The first position where `n` occurs verbatim in `h`, scanning from the
/// start; `None` when `n` occurs nowhere in `h`.
pub open spec fn first_occurrence(h: Seq<u8>, n: Seq<u8>) -> Option<int> {
    first_occurrence_from(h, n, 0)
}

/// What `first_diff` finds is the first divergence: a position where the
/// two sequences differ, with byte-for-byte agreement everywhere before
/// it; and `first_diff` is `None` exactly when the sequences agree on the
/// whole common range.
pub proof fn lemma_first_diff_characterization(a: Seq<u8>, b: Seq<u8>)
    ensures
        first_diff(a, b) is None <==> (forall|k: int|
            0 <= k < a.len() && k < b.len() ==> a[k] == b[k]),
        first_diff(a, b) matches Some(j) ==> {
            &&& 0 <= j < a.len()
            &&& j < b.len()
            &&& a[j] != b[j]
            &&& forall|k: int| 0 <= k < j ==> a[k] == b[k]
        },
    decreases a.len(),
{
    if a.len() == 0 || b.len() == 0 {
    } else if a[0] != b[0] {
    } else {
        lemma_first_diff_characterization(a.drop_first(), b.drop_first());
        match first_diff(a.drop_first(), b.drop_first()) {
            Some(j) => {
                assert(a.drop_first()[j] == a[j + 1]);
                assert(b.drop_first()[j] == b[j + 1]);
                assert forall|k: int| 0 <= k < j + 1 implies a[k] == b[k] by {
                    if k > 0 {
                        assert(a.drop_first()[k - 1] == b.drop_first()[k - 1]);
                    }
                }
            },
            None => {
                assert forall|k: int| 0 <= k < a.len() && k < b.len() implies a[k] == b[k] by {
                    if k > 0 {
                        assert(a.drop_first()[k - 1] == b.drop_first()[k - 1]);
                    }
                }
            },
        }
    }
}

/// A position that differs, with agreement everywhere before it, is
/// exactly what `first_diff` returns.
pub proof fn lemma_first_diff_unique(a: Seq<u8>, b: Seq<u8>, j: int)
    requires
        0 <= j < a.len(),
        j < b.len(),
        a[j] != b[j],
        forall|k: int| 0 <= k < j ==> a[k] == b[k],
    ensures
        first_diff(a, b) == Some(j),
{
    lemma_first_diff_characterization(a, b);
    match first_diff(a, b) {
        Some(j2) => {
            if j2 < j {
                assert(a[j2] == b[j2]);
            } else if j2 > j {
                assert(a[j] == b[j]);
            }
        },
        None => {
            assert(a[j] == b[j]);
        },
    }
}

/// If `n` occurs at `p` and nowhere in `[start, p)`, the scan from
/// `start` finds exactly `p`.
proof fn lemma_first_occurrence_finds(h: Seq<u8>, n: Seq<u8>, start: int, p: int)
    requires
        0 <= start <= p,
        occurs_at(h, n, p),
        forall|q: int| start <= q < p ==> !occurs_at(h, n, q),
    ensures
        first_occurrence_from(h, n, start) == Some(p),
    decreases p - start,
{
    if start == p {
    } else {
        assert(!occurs_at(h, n, start));
        lemma_first_occurrence_finds(h, n, start + 1, p);
    }
}

/// If `n` occurs nowhere at or after `start`, the scan from `start`
/// reports `None`.
proof fn lemma_first_occurrence_misses(h: Seq<u8>, n: Seq<u8>, start: int)
    requires
        0 <= start,
        forall|q: int| start <= q ==> !occurs_at(h, n, q),
    ensures
        first_occurrence_from(h, n, start) is None,
    decreases h.len() - start,
{
    if start + n.len() > h.len() {
    } else {
        assert(!occurs_at(h, n, start));
        if start < h.len() {
            lemma_first_occurrence_misses(h, n, start + 1);
        }
    }
}

/// What the scan finds really is the first occurrence: it occurs there,
/// nothing occurs earlier, and a `None` scan means no occurrence at all.
pub proof fn lemma_first_occurrence_characterization(h: Seq<u8>, n: Seq<u8>)
    ensures
        first_occurrence(h, n) matches Some(p) ==> {
            &&& occurs_at(h, n, p)
            &&& forall|q: int| 0 <= q < p ==> !occurs_at(h, n, q)
        },
        first_occurrence(h, n) is None ==> forall|q: int| !occurs_at(h, n, q),
{
    lemma_first_occurrence_characterization_from(h, n, 0);
}

/// Helper for the characterization, generalized over the scan start.
proof fn lemma_first_occurrence_characterization_from(h: Seq<u8>, n: Seq<u8>, start: int)
    requires
        0 <= start,
    ensures
        first_occurrence_from(h, n, start) matches Some(p) ==> {
            &&& start <= p
            &&& occurs_at(h, n, p)
            &&& forall|q: int| start <= q < p ==> !occurs_at(h, n, q)
        },
        first_occurrence_from(h, n, start) is None ==> forall|q: int|
            start <= q ==> !occurs_at(h, n, q),
    decreases h.len() - start,
{
    if start + n.len() > h.len() {
        assert forall|q: int| start <= q implies !occurs_at(h, n, q) by {}
    } else if h.subrange(start, start + n.len() as int) == n {
    } else if start >= h.len() {
        assert forall|q: int| start <= q implies !occurs_at(h, n, q) by {}
    } else {
        lemma_first_occurrence_characterization_from(h, n, start + 1);
        assert(!occurs_at(h, n, start));
    }
}

/// Search the whole expected payload for the first verbatim occurrence of
/// `needle`. Used after a mismatch to localize an alignment error.
pub fn find_offset(haystack: &[u8], needle: &[u8]) -> (r: Option<usize>)
    ensures
        match r {
            Some(p) => first_occurrence(haystack@, needle@) == Some(p as int),
            None => first_occurrence(haystack@, needle@) is None,
        },
{
    let h_len = haystack.len();
    let n_len = needle.len();
    if n_len > h_len {
        proof {
            assert forall|q: int| !occurs_at(haystack@, needle@, q) by {}
            lemma_first_occurrence_misses(haystack@, needle@, 0);
        }
        return None;
    }
    let mut p: usize = 0;
    loop
        invariant
            n_len == needle@.len(),
            h_len == haystack@.len(),
            n_len <= h_len,
            p <= h_len - n_len + 1,
            forall|q: int| 0 <= q < p ==> !occurs_at(haystack@, needle@, q),
        decreases h_len - p,
    {
        if p > h_len - n_len {
            proof {
                assert forall|q: int| 0 <= q implies !occurs_at(haystack@, needle@, q) by {
                    if q < p {
                    } else {
                        assert(q + needle@.len() > haystack@.len());
                    }
                }
                lemma_first_occurrence_misses(haystack@, needle@, 0);
            }
            return None;
        }
        let mut j: usize = 0;
        while j < n_len && haystack[p + j] == needle[j]
            invariant
                n_len == needle@.len(),
                h_len == haystack@.len(),
                p + n_len <= h_len,
                j <= n_len,
                forall|k: int| 0 <= k < j ==> haystack@[p + k] == needle@[k],
            decreases n_len - j,
        {
            j = j + 1;
        }
        if j == n_len {
            proof {
                assert(haystack@.subrange(p as int, p + n_len as int) =~= needle@);
                lemma_first_occurrence_finds(haystack@, needle@, 0, p as int);
            }
            return Some(p);
        }
        proof {
            assert(!occurs_at(haystack@, needle@, p as int)) by {
                if occurs_at(haystack@, needle@, p as int) {
                    assert(haystack@.subrange(p as int, p + needle@.len() as int)[j as int]
                        == needle@[j as int]);
                }
            }
        }
        p = p + 1;
    }
}

/// The first divergence found inside one frame, with the outcome of the
/// resynchronization search for that frame's bytes.
pub struct Mismatch {
    /// Absolute stream position of the first differing byte.
    pub position: usize,
    /// The byte that was received there.
    pub observed: u8,
    /// The byte the expected payload holds there.
    pub expected_byte: u8,
    /// First position where the frame's bytes occur verbatim in the
    /// expected payload, if anywhere: the corrected offset.
    pub resync: Option<usize>,
}

/// The verifier's verdict on one frame.
pub struct FrameReport {
    /// The first divergence in the frame, if any, within the part of the
    /// frame that the expected payload covers.
    pub mismatch: Option<Mismatch>,
    /// The frame runs past the end of the expected payload: the remote
    /// sent more data than expected. Comparison is clamped to the
    /// available expected bytes.
    pub overrun: bool,
}

/// Check one frame against the expected payload: compare the frame's
/// bytes with the expected slice at the frame's offset (clamped to the
/// end of the payload), localize the first divergence, and on a
/// divergence search the whole payload for the frame's bytes.
pub fn check_frame(expected: &[u8], offset: usize, data: &[u8]) -> (r: FrameReport)
    ensures
        r.overrun == (offset + data@.len() > expected@.len()),
        (r.mismatch is None) == (first_diff(data@, suffix_from(expected@, offset as int))
            is None),
        r.mismatch matches Some(mm) ==> {
            &&& offset <= mm.position < expected@.len()
            &&& mm.position - offset < data@.len()
            &&& first_diff(data@, suffix_from(expected@, offset as int)) == Some(
                mm.position - offset,
            )
            &&& mm.observed == data@[mm.position - offset]
            &&& mm.expected_byte == expected@[mm.position as int]
            &&& (match mm.resync {
                Some(p) => first_occurrence(expected@, data@) == Some(p as int),
                None => first_occurrence(expected@, data@) is None,
            })
        },
{
    let e_len = expected.len();
    let overrun = if offset > e_len {
        true
    } else {
        data.len() > e_len - offset
    };
    let avail = if offset >= e_len {
        0
    } else {
        e_len - offset
    };
    let m = if data.len() < avail {
        data.len()
    } else {
        avail
    };
    let ghost b = suffix_from(expected@, offset as int);
    proof {
        assert(b.len() == avail);
        assert(forall|k: int| 0 <= k < b.len() ==> b[k] == expected@[offset + k]);
    }
    let mut j: usize = 0;
    while j < m && data[j] == expected[offset + j]
        invariant
            expected@.len() <= usize::MAX,
            m <= data@.len(),
            offset + m <= expected@.len() || m == 0,
            m == vstd::math::min(data@.len() as int, b.len() as int),
            b == suffix_from(expected@, offset as int),
            b.len() == avail,
            avail == (if offset >= expected@.len() {
                0int
            } else {
                expected@.len() - offset
            }),
            j <= m,
            forall|k: int| 0 <= k < j ==> data@[k] == expected@[offset + k],
        decreases m - j,
    {
        j = j + 1;
    }
    if j < m {
        let resync = find_offset(expected, data);
        proof {
            assert(data@[j as int] != expected@[offset + j]);
            assert(b[j as int] == expected@[offset + j]);
            assert forall|k: int| 0 <= k < j implies data@[k] == b[k] by {}
            lemma_first_diff_unique(data@, b, j as int);
        }
        FrameReport {
            mismatch: Some(
                Mismatch {
                    position: offset + j,
                    observed: data[j],
                    expected_byte: expected[offset + j],
                    resync,
                },
            ),
            overrun,
        }
    } else {
        proof {
            lemma_first_diff_characterization(data@, b);
            assert forall|k: int| 0 <= k < data@.len() && k < b.len() implies data@[k] == b[k] by {
                assert(data@[k] == expected@[offset + k]);
            }
        }
        FrameReport { mismatch: None, overrun }
    }
}

/// The run's sole termination condition on the read path: the frame
/// ending at `offset + len` has brought the total observed length up to
/// the expected length.
pub fn is_complete(expected_len: usize, offset: usize, len: usize) -> (r: bool)
    ensures
        r == (offset + len >= expected_len),
{
    if offset >= expected_len {
        true
    } else {
        len >= expected_len - offset
    }
}

/// Law (verifier true-positive): when the received stream equals the
/// expected payload, then however the transport chunks it, every frame a
/// decode framer emits stays within the payload and diverges from it
/// nowhere — the verifier reports no mismatch and no overrun.
pub proof fn lemma_true_positive(expected: Seq<u8>, chunks: Seq<Seq<u8>>)
    requires
        concat_chunks(chunks) == expected,
    ensures
        forall|i: int|
            #![trigger decode_run(0, chunks).1[i]]
            0 <= i < decode_run(0, chunks).1.len() ==> {
                let f = decode_run(0, chunks).1[i];
                &&& f.0 + f.1.len() <= expected.len()
                &&& first_diff(f.1, suffix_from(expected, f.0 as int)) is None
            },
{
    crate::framer::lemma_frames_are_slices(0, chunks);
    assert forall|i: int|
        #![trigger decode_run(0, chunks).1[i]]
        0 <= i < decode_run(0, chunks).1.len() implies {
        let f = decode_run(0, chunks).1[i];
        &&& f.0 + f.1.len() <= expected.len()
        &&& first_diff(f.1, suffix_from(expected, f.0 as int)) is None
    } by {
        let f = decode_run(0, chunks).1[i];
        let b = suffix_from(expected, f.0 as int);
        assert(f.1 == expected.subrange(f.0 as int, f.0 + f.1.len() as int));
        lemma_first_diff_characterization(f.1, b);
        assert forall|k: int| 0 <= k < f.1.len() && k < b.len() implies f.1[k] == b[k] by {
            assert(f.1[k] == expected[f.0 + k]);
            assert(b[k] == expected[f.0 + k]);
        }
    }
}

/// Law (verifier true-negative, localization): when a frame agrees with
/// the expected payload everywhere except at the single absolute position
/// `k`, the first divergence the verifier finds lies exactly at `k` — the
/// reported mismatch position is `offset` plus this index.
pub proof fn lemma_mismatch_localization(expected: Seq<u8>, offset: int, data: Seq<u8>, k: int)
    requires
        0 <= offset,
        offset + data.len() <= expected.len(),
        offset <= k < offset + data.len(),
        data[k - offset] != expected[k],
        forall|j: int| 0 <= j < data.len() && offset + j != k ==> data[j] == expected[offset + j],
    ensures
        first_diff(data, suffix_from(expected, offset)) == Some(k - offset),
{
    let b = suffix_from(expected, offset);
    assert forall|m: int| 0 <= m < k - offset implies data[m] == b[m] by {
        assert(data[m] == expected[offset + m]);
        assert(b[m] == expected[offset + m]);
    }
    assert(b[k - offset] == expected[k]);
    lemma_first_diff_unique(data, b, k - offset);
}

/// Law (resynchronization correctness): when a mismatched frame's bytes
/// occur verbatim in the expected payload at position `p` and nowhere
/// earlier, the resynchronization search reports exactly `p` as the
/// corrected offset. (The search policy is first occurrence, scanning
/// from the start of the payload.)
pub proof fn lemma_resynchronization(expected: Seq<u8>, data: Seq<u8>, p: int)
    requires
        occurs_at(expected, data, p),
        forall|q: int| 0 <= q < p ==> !occurs_at(expected, data, q),
    ensures
        first_occurrence(expected, data) == Some(p),
{
    lemma_first_occurrence_finds(expected, data, 0, p);
}

/// The skew implied by a resynchronization hit: how far ahead (positive)
/// or behind (negative) the remote stream is, relative to the frame's
/// recorded offset.
pub fn skew_of(corrected: usize, offset: usize) -> (r: i128)
    ensures
        r == corrected - offset,
{
    corrected as i128 - offset as i128
}

} // verus!
