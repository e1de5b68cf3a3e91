//! Splitting over-long scenes into near-equal pieces.

use vstd::prelude::*;
use vstd::arithmetic::div_mod::lemma_fundamental_div_mod;
use crate::sorted::{strictly_increasing, same_elements, normalize, lemma_increasing_unique};

verus! {

/// End (exclusive) of the scene that starts at `starts[i]`: the next start,
/// or `total` for the last scene.
pub open spec fn range_end(starts: Seq<usize>, total: usize, i: int) -> usize {
    if i + 1 < starts.len() {
        starts[i + 1]
    } else {
        total
    }
}

/// Length of the frame range `[start, end)`, zero when `end` is not past `start`.
pub open spec fn range_len(start: usize, end: usize) -> nat {
    if end > start {
        (end - start) as nat
    } else {
        0
    }
}

/// Fewest pieces of at most `max` frames that cover `len` frames (`len / max` rounded up).
pub open spec fn chunk_count(len: nat, max: nat) -> nat {
    if len % max == 0 {
        len / max
    } else {
        len / max + 1
    }
}

/// Scene starts emitted for the range `[start, end)`: `start` itself and, when
/// the range is longer than `max`, the points `start + j * (len / k)` for
/// `j = 1 .. k - 1`, where `k` is the chunk count.
pub open spec fn range_points(start: usize, end: usize, max: usize) -> Seq<usize> {
    let len = range_len(start, end);
    if len > max {
        let k = chunk_count(len, max as nat);
        let c = len / k;
        Seq::new(k, |j: int| (start + j * c) as usize)
    } else {
        seq![start]
    }
}

/// Points emitted for the first `n` scenes, scene by scene.
pub open spec fn points_before(starts: Seq<usize>, total: usize, max: usize, n: int) -> Seq<usize>
    decreases n,
{
    if n <= 0 {
        Seq::empty()
    } else {
        points_before(starts, total, max, n - 1) + range_points(
            starts[n - 1],
            range_end(starts, total, n - 1),
            max,
        )
    }
}

/// Points emitted for all scenes, before sorting and removing duplicates.
pub open spec fn cut_points(starts: Seq<usize>, total: usize, max: usize) -> Seq<usize> {
    points_before(starts, total, max, starts.len() as int)
}

/// `out` is a valid result of splitting `starts`: the emitted points, sorted
/// ascending without duplicates.
pub open spec fn splits_to(starts: Seq<usize>, total: usize, max: usize, out: Seq<usize>) -> bool {
    strictly_increasing(out) && same_elements(out, cut_points(starts, total, max))
}

/// Arithmetic of a split range of `len > max` frames into `k` pieces of `c`
/// frames, the last one taking the remainder.
proof fn lemma_chunks(len: nat, max: nat)
    requires
        0 < max < len,
    ensures
        2 <= chunk_count(len, max) <= len,
        1 <= len / chunk_count(len, max) <= max,
        (chunk_count(len, max) - 1) * (len / chunk_count(len, max)) < len,
        len - (chunk_count(len, max) - 1) * (len / chunk_count(len, max)) == len / chunk_count(
            len,
            max,
        ) + len % chunk_count(len, max),
{
    let k = chunk_count(len, max);
    let q = len / max;
    let r = len % max;
    lemma_fundamental_div_mod(len as int, max as int);
    assert(len == max * q + r);
    assert(q >= 1) by (nonlinear_arith)
        requires
            len == max * q + r,
            0 <= r < max,
            max < len,
    ;
    assert(k * max >= len && k >= 2 && k <= len) by (nonlinear_arith)
        requires
            len == max * q + r,
            0 <= r < max,
            max < len,
            q >= 1,
            k == (if r == 0 { q } else { q + 1 }),
    ;
    let c = len / k;
    lemma_fundamental_div_mod(len as int, k as int);
    assert(len == k * c + len % k);
    assert(1 <= c <= max && (k - 1) * c < len) by (nonlinear_arith)
        requires
            len == k * c + len % k,
            0 <= len % k < k,
            k * max >= len,
            2 <= k <= len,
    ;
    let m = len % k;
    assert(len - (k - 1) * c == c + m) by (nonlinear_arith)
        requires
            len == k * c + m,
    ;
}

/// Every piece that splitting a range of `len` frames yields is at most
/// `max` frames long. Only the last piece, `len / k + len % k` frames, can be
/// longer than `max`.
pub open spec fn pieces_fit(len: nat, max: nat) -> bool {
    len <= max || len / chunk_count(len, max) + len % chunk_count(len, max) <= max
}

/// The points of one range start at `start`, increase strictly, stay inside the
/// range, and lie at most `max` frames apart.
proof fn lemma_range_points(start: usize, end: usize, max: usize)
    requires
        max > 0,
    ensures
        ({
            let p = range_points(start, end, max);
            &&& p.len() >= 1
            &&& p[0] == start
            &&& strictly_increasing(p)
            &&& forall|j: int|
                0 <= j < p.len() ==> start <= #[trigger] p[j] && (end > start ==> p[j] < end)
            &&& forall|j: int| 0 <= j < p.len() - 1 ==> #[trigger] p[j + 1] - p[j] <= max
            &&& pieces_fit(range_len(start, end), max as nat) ==> range_len(p.last(), end) <= max
        }),
{
    let p = range_points(start, end, max);
    let len = range_len(start, end);
    if len > max {
        lemma_chunks(len, max as nat);
        let k = chunk_count(len, max as nat);
        let c = len / k;
        assert forall|j: int| 0 <= j < k implies j * c <= (k - 1) * c && p[j] == start + j * c by {
            assert(j * c <= (k - 1) * c) by (nonlinear_arith)
                requires
                    j <= k - 1,
                    c >= 1,
            ;
        }
        assert forall|i: int, j: int| 0 <= i < j < p.len() implies p[i] < p[j] by {
            assert(i * c < j * c) by (nonlinear_arith)
                requires
                    i < j,
                    c >= 1,
            ;
        }
        assert forall|j: int| 0 <= j < p.len() - 1 implies #[trigger] p[j + 1] - p[j] <= max by {
            assert((j + 1) * c == j * c + c) by (nonlinear_arith);
        }
        assert(p.last() == start + (k - 1) * c);
    }
}

/// For a strictly increasing `starts`, the points of the first `n` scenes
/// increase strictly, hold each of those starts, number at least `n`, and lie
/// below the next start.
proof fn lemma_points_before(starts: Seq<usize>, total: usize, max: usize, n: int)
    requires
        strictly_increasing(starts),
        max > 0,
        0 <= n <= starts.len(),
    ensures
        ({
            let p = points_before(starts, total, max, n);
            &&& strictly_increasing(p)
            &&& p.len() >= n
            &&& forall|k: int| 0 <= k < n ==> p.contains(#[trigger] starts[k])
            &&& n < starts.len() ==> forall|j: int| 0 <= j < p.len() ==> #[trigger] p[j] < starts[n]
        }),
    decreases n,
{
    if n > 0 {
        lemma_points_before(starts, total, max, n - 1);
        lemma_range_points(starts[n - 1], range_end(starts, total, n - 1), max);
        let a = points_before(starts, total, max, n - 1);
        let b = range_points(starts[n - 1], range_end(starts, total, n - 1), max);
        let p = points_before(starts, total, max, n);
        assert(p == a + b);
        assert forall|i: int, j: int| 0 <= i < j < p.len() implies p[i] < p[j] by {
            if j < a.len() {
            } else if i < a.len() {
                assert(a[i] < starts[n - 1]);
                assert(b[j - a.len()] >= starts[n - 1]);
            } else {
                assert(b[i - a.len()] < b[j - a.len()]);
            }
        }
        assert forall|k: int| 0 <= k < n implies p.contains(#[trigger] starts[k]) by {
            if k < n - 1 {
                let i = choose|i: int| 0 <= i < a.len() && a[i] == starts[k];
                assert(p[i] == starts[k]);
            } else {
                assert(p[a.len() as int] == starts[k]);
            }
        }
        if n < starts.len() {
            assert forall|j: int| 0 <= j < p.len() implies #[trigger] p[j] < starts[n] by {
                if j < a.len() {
                    assert(a[j] < starts[n - 1]);
                } else {
                    assert(b[j - a.len()] < starts[n]);
                }
            }
        }
    }
}

/// For a strictly increasing `starts`, the emitted points already increase
/// strictly and hold every start.
proof fn lemma_cut_points_increasing(starts: Seq<usize>, total: usize, max: usize)
    requires
        strictly_increasing(starts),
        max > 0,
    ensures
        strictly_increasing(cut_points(starts, total, max)),
        cut_points(starts, total, max).len() >= starts.len(),
        forall|k: int|
            0 <= k < starts.len() ==> cut_points(starts, total, max).contains(#[trigger] starts[k]),
{
    lemma_points_before(starts, total, max, starts.len() as int);
}

/// Splits every scene longer than `max_frames` frames into near-equal pieces.
///
/// The scene starting at `scene_starts[i]` ends at `scene_starts[i + 1]`, or at
/// `total_frames` for the last one. A scene of `len > max_frames` frames is cut
/// into `k = ceil(len / max_frames)` pieces: the first `k - 1` are
/// `len / k` frames long and the last takes the remainder. The result is sorted
/// ascending without duplicates; for a strictly increasing input it is the
/// emitted points in order, every input start kept.
pub fn split_long_scenes(scene_starts: &[usize], total_frames: usize, max_frames: usize) -> (r: Vec<usize>)
    requires
        max_frames > 0,
    ensures
        splits_to(scene_starts@, total_frames, max_frames, r@),
        strictly_increasing(scene_starts@) ==> r@ == cut_points(scene_starts@, total_frames, max_frames),
{
    let ghost starts = scene_starts@;
    let mut points: Vec<usize> = Vec::new();
    let mut i: usize = 0;
    while i < scene_starts.len()
        invariant
            starts == scene_starts@,
            max_frames > 0,
            i <= starts.len(),
            points@ == points_before(starts, total_frames, max_frames, i as int),
        decreases starts.len() - i,
    {
        let start = scene_starts[i];
        let end = if i + 1 < scene_starts.len() {
            scene_starts[i + 1]
        } else {
            total_frames
        };
        let ghost before = points@;
        let ghost emitted = range_points(start, end, max_frames);
        assert(end == range_end(starts, total_frames, i as int));
        points.push(start);
        let scene_len = end.saturating_sub(start);
        assert(scene_len == range_len(start, end));
        if scene_len > max_frames {
            proof {
                lemma_chunks(scene_len as nat, max_frames as nat);
            }
            let rounding: usize = if scene_len % max_frames != 0 {
                1
            } else {
                0
            };
            assert(scene_len / max_frames + rounding == chunk_count(scene_len as nat, max_frames as nat));
            let num_chunks = scene_len / max_frames + rounding;
            let chunk_size = scene_len / num_chunks;
            assert(emitted.len() == num_chunks);
            assert(points@ == before + emitted.take(1));
            let mut j: usize = 1;
            while j < num_chunks
                invariant
                    1 <= j <= num_chunks,
                    num_chunks == emitted.len(),
                    chunk_size == scene_len / num_chunks,
                    (num_chunks - 1) * chunk_size < scene_len,
                    scene_len == end - start,
                    emitted == range_points(start, end, max_frames),
                    scene_len > max_frames,
                    points@ == before + emitted.take(j as int),
                decreases num_chunks - j,
            {
                assert(j * chunk_size <= (num_chunks - 1) * chunk_size) by (nonlinear_arith)
                    requires
                        j <= num_chunks - 1,
                ;
                let split = start + j * chunk_size;
                // Every split point lies strictly inside the scene.
                assert(split < end);
                assert(emitted[j as int] == split);
                assert(emitted.take(j + 1) == emitted.take(j as int).push(split));
                points.push(split);
                j = j + 1;
            }
            assert(emitted.take(num_chunks as int) == emitted);
        } else {
            assert(emitted == seq![start]);
        }
        assert(points@ == points_before(starts, total_frames, max_frames, i + 1));
        i = i + 1;
    }
    let r = normalize(&points);
    proof {
        if strictly_increasing(starts) {
            lemma_cut_points_increasing(starts, total_frames, max_frames);
        }
    }
    r
}

/// Every scene of `starts` (the last one ending at `total`) is at most `max` frames long.
pub open spec fn all_ranges_within(starts: Seq<usize>, total: usize, max: usize) -> bool {
    forall|i: int|
        0 <= i < starts.len() ==> #[trigger] range_len(starts[i], range_end(starts, total, i)) <= max
}

/// Every scene of `starts` splits into pieces of at most `max` frames.
pub open spec fn all_pieces_fit(starts: Seq<usize>, total: usize, max: usize) -> bool {
    forall|i: int|
        0 <= i < starts.len() ==> pieces_fit(
            #[trigger] range_len(starts[i], range_end(starts, total, i)),
            max as nat,
        )
}

proof fn lemma_points_before_short(starts: Seq<usize>, total: usize, max: usize, n: int)
    requires
        all_ranges_within(starts, total, max),
        0 <= n <= starts.len(),
    ensures
        points_before(starts, total, max, n) == starts.take(n),
    decreases n,
{
    if n > 0 {
        lemma_points_before_short(starts, total, max, n - 1);
        assert(range_len(starts[n - 1], range_end(starts, total, n - 1)) <= max);
        assert(starts.take(n) == starts.take(n - 1).push(starts[n - 1]));
    }
}

proof fn lemma_points_before_gaps(starts: Seq<usize>, total: usize, max: usize, n: int)
    requires
        strictly_increasing(starts),
        all_pieces_fit(starts, total, max),
        max > 0,
        1 <= n <= starts.len(),
    ensures
        ({
            let p = points_before(starts, total, max, n);
            &&& p.len() >= 1
            &&& forall|j: int| 0 <= j < p.len() - 1 ==> #[trigger] p[j + 1] - p[j] <= max
            &&& range_len(p.last(), range_end(starts, total, n - 1)) <= max
        }),
    decreases n,
{
    let a = points_before(starts, total, max, n - 1);
    let b = range_points(starts[n - 1], range_end(starts, total, n - 1), max);
    let p = points_before(starts, total, max, n);
    assert(p == a + b);
    assert(pieces_fit(range_len(starts[n - 1], range_end(starts, total, n - 1)), max as nat));
    lemma_range_points(starts[n - 1], range_end(starts, total, n - 1), max);
    assert(p.last() == b.last());
    if n > 1 {
        lemma_points_before_gaps(starts, total, max, n - 1);
        lemma_points_before(starts, total, max, n - 1);
        assert(range_end(starts, total, n - 2) == starts[n - 1]);
        assert forall|j: int| 0 <= j < p.len() - 1 implies #[trigger] p[j + 1] - p[j] <= max by {
            if j + 1 < a.len() {
                assert(a[j + 1] - a[j] <= max);
            } else if j + 1 == a.len() {
                assert(a[j] < starts[n - 1]);
                assert(p[j + 1] == b[0]);
            } else {
                let i = j - a.len();
                assert(b[i + 1] - b[i] <= max);
            }
        }
    } else {
        assert(a.len() == 0);
        assert(p == b);
        assert forall|j: int| 0 <= j < p.len() - 1 implies #[trigger] p[j + 1] - p[j] <= max by {
            assert(b[j + 1] - b[j] <= max);
        }
    }
}

/// Scenes that are already no longer than `max` are left as they are: a
/// strictly increasing `starts` whose every scene fits comes back unchanged.
pub proof fn lemma_short_scenes_unchanged(
    starts: Seq<usize>,
    total: usize,
    max: usize,
    out: Seq<usize>,
)
    requires
        strictly_increasing(starts),
        all_ranges_within(starts, total, max),
        splits_to(starts, total, max, out),
    ensures
        out == starts,
{
    lemma_points_before_short(starts, total, max, starts.len() as int);
    assert(starts.take(starts.len() as int) == starts);
    lemma_increasing_unique(out, starts);
}

/// Splitting only adds starts: the result of a strictly increasing `starts`
/// increases strictly, holds every input start, and is at least as long.
pub proof fn lemma_split_keeps_starts(starts: Seq<usize>, total: usize, max: usize, out: Seq<usize>)
    requires
        strictly_increasing(starts),
        max > 0,
        splits_to(starts, total, max, out),
    ensures
        strictly_increasing(out),
        forall|k: int| 0 <= k < starts.len() ==> out.contains(#[trigger] starts[k]),
        out.len() >= starts.len(),
{
    lemma_cut_points_increasing(starts, total, max);
    lemma_increasing_unique(out, cut_points(starts, total, max));
}

/// After splitting, every scene (the last one ending at `total`) is at most
/// `max` frames long, provided that each input scene splits into pieces that
/// fit (the last piece of a split scene takes the remainder of the division).
pub proof fn lemma_split_bounds_scenes(
    starts: Seq<usize>,
    total: usize,
    max: usize,
    out: Seq<usize>,
)
    requires
        strictly_increasing(starts),
        max > 0,
        all_pieces_fit(starts, total, max),
        splits_to(starts, total, max, out),
    ensures
        all_ranges_within(out, total, max),
{
    lemma_cut_points_increasing(starts, total, max);
    lemma_increasing_unique(out, cut_points(starts, total, max));
    if starts.len() > 0 {
        lemma_points_before_gaps(starts, total, max, starts.len() as int);
        assert forall|i: int| 0 <= i < out.len() implies #[trigger] range_len(
            out[i],
            range_end(out, total, i),
        ) <= max by {
            if i + 1 < out.len() {
                assert(out[i + 1] - out[i] <= max);
                assert(out[i] < out[i + 1]);
            }
        }
    }
}

/// Splitting a second time changes nothing, provided that each input scene
/// splits into pieces that fit.
pub proof fn lemma_split_idempotent(
    starts: Seq<usize>,
    total: usize,
    max: usize,
    once: Seq<usize>,
    twice: Seq<usize>,
)
    requires
        strictly_increasing(starts),
        max > 0,
        all_pieces_fit(starts, total, max),
        splits_to(starts, total, max, once),
        splits_to(once, total, max, twice),
    ensures
        twice == once,
{
    lemma_split_bounds_scenes(starts, total, max, once);
    lemma_short_scenes_unchanged(once, total, max, twice);
}

/// The same arguments always give the same result, sorted and free of duplicates.
pub proof fn lemma_split_deterministic(
    starts: Seq<usize>,
    total: usize,
    max: usize,
    a: Seq<usize>,
    b: Seq<usize>,
)
    requires
        splits_to(starts, total, max, a),
        splits_to(starts, total, max, b),
    ensures
        a == b,
        strictly_increasing(a),
{
    lemma_increasing_unique(a, b);
}

} // verus!
