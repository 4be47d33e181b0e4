//! Groups of utterances that fit into a device's buffers.

use vstd::prelude::*;

use crate::gmm::matrix::Matrix;
use crate::types::PdfId;

verus! {

/// Which kind of device scores.
#[derive(Clone, Copy, Debug, PartialEq, Eq, Hash, Structural)]
pub enum DeviceKind {
    Cpu,
    Gpu,
}

/// Frames that one workgroup scores.
pub const FRAMES_PER_WG: u32 = 32;

/// Pdfs that one workgroup scores.
pub const PDFS_PER_WG: u32 = 16;

/// The widest row that the kernels hold.
pub const MAX_WIDTH: usize = 96;

/// How many groups of `b` hold `a` items, at least one.
pub open spec fn groups_of(a: int, b: int) -> int {
    if a <= 0 {
        1
    } else {
        (a + b - 1) / b
    }
}

/// How many groups of `b` hold `a` items, at least one.
pub fn div_ceil(a: u32, b: u32) -> (r: u32)
    requires
        b > 0,
    ensures
        r == groups_of(a as int, b as int),
{
    if a == 0 {
        return 1;
    }
    let q: u32 = a / b;
    let rest: u32 = a % b;
    proof {
        vstd::arithmetic::div_mod::lemma_fundamental_div_mod(a as int, b as int);
        if rest == 0 {
            assert(q * b == a) by (nonlinear_arith)
                requires
                    a == b * q + 0,
            ;
            vstd::arithmetic::div_mod::lemma_fundamental_div_mod_converse(
                a + b - 1,
                b as int,
                q as int,
                b - 1,
            );
        } else {
            assert((q + 1) * b == b * q + b) by (nonlinear_arith);
            vstd::arithmetic::div_mod::lemma_fundamental_div_mod_converse(
                a + b - 1,
                b as int,
                q + 1,
                rest - 1,
            );
            assert(q < a) by (nonlinear_arith)
                requires
                    a == b * q + rest,
                    rest > 0,
                    b > 0,
                    q >= 0,
            ;
        }
    }
    if rest == 0 {
        q
    } else {
        q + 1
    }
}

/// `width` rounded up to a multiple of four.
pub open spec fn padded(width: int) -> int {
    (width + 3) / 4 * 4
}

/// A row width rounded up to a multiple of four, so that rows can be read four values at a time.
pub fn padded_width(width: usize) -> (r: usize)
    requires
        width <= usize::MAX - 3,
    ensures
        r == padded(width as int),
        width <= r <= width + 3,
        r % 4 == 0,
{
    (width + 3) / 4 * 4
}

/// Padding is as little as it can be: a padded width is a multiple of four, and padding it again
/// changes nothing.
pub proof fn padding_is_least(width: int)
    requires
        0 <= width,
    ensures
        width <= padded(width) < width + 4,
        padded(width) % 4 == 0,
        padded(padded(width)) == padded(width),
{
}

/// The groups from item `i` on, where the current group starts at `start` and has the sizes `used`
/// so far. A group ends before the item that would bring one of its two sizes over the limit; an
/// item that is over the limit by itself still gets a group.
pub open spec fn groups_from(
    sizes: Seq<(u64, u64)>,
    limit: int,
    start: int,
    i: int,
    used: (int, int),
) -> Seq<(int, int)>
    decreases sizes.len() - i,
{
    if i >= sizes.len() {
        if start < sizes.len() {
            seq![(start, sizes.len() as int)]
        } else {
            seq![]
        }
    } else {
        let s = sizes[i];
        if i > start && (used.0 + s.0 > limit || used.1 + s.1 > limit) {
            seq![(start, i)] + groups_from(sizes, limit, i, i + 1, (s.0 as int, s.1 as int))
        } else {
            groups_from(sizes, limit, start, i + 1, (used.0 + s.0, used.1 + s.1))
        }
    }
}

/// The sizes of the items from `a` to `b` together.
pub open spec fn size_of(sizes: Seq<(u64, u64)>, a: int, b: int) -> (int, int)
    decreases b - a,
{
    if b <= a {
        (0, 0)
    } else {
        let s = size_of(sizes, a, b - 1);
        (s.0 + sizes[b - 1].0, s.1 + sizes[b - 1].1)
    }
}

/// The groups follow each other from `start` to the last item, none is empty, and those of more
/// than one item are within the limit.
pub open spec fn is_partition(
    groups: Seq<(int, int)>,
    sizes: Seq<(u64, u64)>,
    limit: int,
    start: int,
) -> bool {
    &&& groups.len() == 0 ==> start == sizes.len()
    &&& groups.len() > 0 ==> groups[0].0 == start && groups.last().1 == sizes.len()
    &&& forall|k: int|
        0 <= k < groups.len() ==> start <= (#[trigger] groups[k]).0 < groups[k].1 <= sizes.len()
    &&& forall|k: int| 0 < k < groups.len() ==> (#[trigger] groups[k]).0 == groups[k - 1].1
    &&& forall|k: int|
        0 <= k < groups.len() && (#[trigger] groups[k]).1 > groups[k].0 + 1 ==> {
            let s = size_of(sizes, groups[k].0, groups[k].1);
            s.0 <= limit && s.1 <= limit
        }
}

proof fn groups_partition(
    sizes: Seq<(u64, u64)>,
    limit: int,
    start: int,
    i: int,
    used: (int, int),
)
    requires
        0 <= start <= i <= sizes.len(),
        i == start ==> used == (0int, 0int),
        used == size_of(sizes, start, i),
        i > start + 1 ==> used.0 <= limit && used.1 <= limit,
    ensures
        is_partition(groups_from(sizes, limit, start, i, used), sizes, limit, start),
    decreases sizes.len() - i,
{
    let groups = groups_from(sizes, limit, start, i, used);
    if i < sizes.len() {
        let s = sizes[i];
        if i > start && (used.0 + s.0 > limit || used.1 + s.1 > limit) {
            let next = (s.0 as int, s.1 as int);
            assert(size_of(sizes, i, i + 1) == next) by {
                assert(size_of(sizes, i, i) == (0int, 0int));
            }
            groups_partition(sizes, limit, i, i + 1, next);
            let rest = groups_from(sizes, limit, i, i + 1, next);
            assert(groups =~= seq![(start, i)] + rest);
            assert(rest.len() > 0);
            assert forall|k: int| 0 <= k < groups.len() implies start <= (#[trigger] groups[k]).0
                < groups[k].1 <= sizes.len() by {
                if k > 0 {
                    assert(groups[k] == rest[k - 1]);
                }
            }
            assert forall|k: int| 0 < k < groups.len() implies (#[trigger] groups[k]).0
                == groups[k - 1].1 by {
                assert(groups[k] == rest[k - 1]);
                if k > 1 {
                    assert(groups[k - 1] == rest[k - 2]);
                }
            }
            assert forall|k: int|
                0 <= k < groups.len() && (#[trigger] groups[k]).1 > groups[k].0 + 1 implies ({
                let s = size_of(sizes, groups[k].0, groups[k].1);
                s.0 <= limit && s.1 <= limit
            }) by {
                if k > 0 {
                    assert(groups[k] == rest[k - 1]);
                }
            }
            assert(groups.last() == rest.last());
        } else {
            groups_partition(sizes, limit, start, i + 1, (used.0 + s.0, used.1 + s.1));
        }
    }
}

/// Groups cover all items in order, none is empty, and only a group of a single item can be over
/// the limit.
pub proof fn groups_cover_all(sizes: Seq<(u64, u64)>, limit: int)
    ensures
        is_partition(groups_from(sizes, limit, 0, 0, (0, 0)), sizes, limit, 0),
{
    assert(size_of(sizes, 0, 0) == (0int, 0int));
    groups_partition(sizes, limit, 0, 0, (0, 0));
}

/// The bounds of groups.
pub open spec fn bounds(v: Seq<(usize, usize)>) -> Seq<(int, int)> {
    Seq::new(v.len(), |i: int| (v[i].0 as int, v[i].1 as int))
}

/// Group items in order so that the sizes of each group stay within a limit.
pub fn group(sizes: &Vec<(u64, u64)>, limit: u64) -> (r: Vec<(usize, usize)>)
    ensures
        bounds(r@) == groups_from(sizes@, limit as int, 0, 0, (0, 0)),
{
    let n: usize = sizes.len();
    let mut out: Vec<(usize, usize)> = Vec::new();
    let ghost want = groups_from(sizes@, limit as int, 0, 0, (0, 0));
    let mut start: usize = 0;
    let mut first: u64 = 0;
    let mut second: u64 = 0;
    let mut i: usize = 0;
    assert(bounds(out@) + want =~= want);
    while i < n
        invariant
            n == sizes@.len(),
            start <= i <= n,
            i == start ==> first == 0 && second == 0,
            want == groups_from(sizes@, limit as int, 0, 0, (0, 0)),
            want == bounds(out@) + groups_from(
                sizes@,
                limit as int,
                start as int,
                i as int,
                (first as int, second as int),
            ),
        decreases n - i,
    {
        let s: (u64, u64) = sizes[i];
        let over: bool = s.0 > limit || first > limit - s.0 || s.1 > limit || second > limit - s.1;
        if i > start && over {
            let ghost before = bounds(out@);
            out.push((start, i));
            proof {
                let rest = groups_from(
                    sizes@,
                    limit as int,
                    i as int,
                    i + 1,
                    (s.0 as int, s.1 as int),
                );
                assert(bounds(out@) =~= before.push((start as int, i as int)));
                assert(before + (seq![(start as int, i as int)] + rest) =~= bounds(out@) + rest);
            }
            start = i;
            first = s.0;
            second = s.1;
        } else {
            first = first + s.0;
            second = second + s.1;
        }
        i += 1;
    }
    if start < n {
        let ghost before = bounds(out@);
        out.push((start, n));
        assert(bounds(out@) =~= before + seq![(start as int, n as int)]);
    } else {
        assert(bounds(out@) + Seq::<(int, int)>::empty() =~= bounds(out@));
    }
    out
}

/// The bytes of an utterance's features: four for every value of its padded rows.
pub open spec fn feature_bytes(frames: int, width: int) -> int {
    frames * width * 4
}

/// The features of an utterance take no more bytes than 64 bits can count.
pub open spec fn countable(frames: Seq<usize>, width: int) -> bool {
    forall|i: int|
        0 <= i < frames.len() ==> feature_bytes(#[trigger] frames[i] as int, width) <= u64::MAX
}

/// The sizes of a batch for [`chunk_batch`]: the features of every utterance.
pub open spec fn batch_sizes(frames: Seq<usize>, width: int) -> Seq<(u64, u64)> {
    Seq::new(frames.len(), |i: int| (feature_bytes(frames[i] as int, width) as u64, 0u64))
}

/// The frames of an utterance that count: those that have both features and a pdf.
pub open spec fn frames_used(feats: Matrix, pdfs: Vec<PdfId>) -> int {
    if pdfs@.len() < feats.rows@.len() {
        pdfs@.len() as int
    } else {
        feats.rows@.len() as int
    }
}

/// The frames of every utterance that count.
pub open spec fn batch_frames(feats: Seq<Matrix>, pdf_per_frame: Seq<Vec<PdfId>>) -> Seq<usize> {
    Seq::new(feats.len(), |i: int| frames_used(feats[i], pdf_per_frame[i]) as usize)
}

/// Count the frames of every utterance that have both features and a pdf.
pub fn count_frames(feats: &Vec<Matrix>, pdf_per_frame: &Vec<Vec<PdfId>>) -> (r: Vec<usize>)
    requires
        feats@.len() <= pdf_per_frame@.len(),
    ensures
        r@ == batch_frames(feats@, pdf_per_frame@),
{
    let mut out: Vec<usize> = Vec::new();
    let mut i: usize = 0;
    while i < feats.len()
        invariant
            feats@.len() <= pdf_per_frame@.len(),
            i <= feats@.len(),
            out@ == batch_frames(feats@, pdf_per_frame@).take(i as int),
        decreases feats.len() - i,
    {
        let pdfs: usize = pdf_per_frame[i].len();
        let rows: usize = feats[i].rows.len();
        out.push(if pdfs < rows {
            pdfs
        } else {
            rows
        });
        assert(out@ =~= batch_frames(feats@, pdf_per_frame@).take(i + 1));
        i += 1;
    }
    assert(out@ =~= batch_frames(feats@, pdf_per_frame@));
    out
}

/// Split a batch so that the features of each part take at most half of `cap`. Frames without
/// features or without a pdf do not count.
pub fn chunk_batch(
    feats: &Vec<Matrix>,
    pdf_per_frame: &Vec<Vec<PdfId>>,
    padded: usize,
    cap: u64,
) -> (r: Vec<(usize, usize)>)
    requires
        feats@.len() <= pdf_per_frame@.len(),
        countable(batch_frames(feats@, pdf_per_frame@), padded as int),
    ensures
        bounds(r@) == groups_from(
            batch_sizes(batch_frames(feats@, pdf_per_frame@), padded as int),
            (cap / 2) as int,
            0,
            0,
            (0, 0),
        ),
{
    let frames = count_frames(feats, pdf_per_frame);
    let mut sizes: Vec<(u64, u64)> = Vec::new();
    let mut i: usize = 0;
    while i < frames.len()
        invariant
            countable(frames@, padded as int),
            i <= frames@.len(),
            sizes@ == batch_sizes(frames@, padded as int).take(i as int),
        decreases frames.len() - i,
    {
        let n: usize = frames[i];
        assert(feature_bytes(n as int, padded as int) <= u64::MAX);
        assert(n * padded >= 0) by (nonlinear_arith);
        let b: u64 = n as u64 * padded as u64 * 4;
        sizes.push((b, 0));
        assert(sizes@ =~= batch_sizes(frames@, padded as int).take(i + 1));
        i += 1;
    }
    assert(sizes@ =~= batch_sizes(frames@, padded as int));
    group(&sizes, cap / 2)
}

/// An utterance to score: how many frames it has, and the pdfs that it needs.
#[derive(Debug)]
pub struct ScoreJob {
    /// The expanded rows of the frames, one after the other, as single-precision bits.
    pub expanded: Vec<u32>,
    pub frames: usize,
    pub sel: Vec<PdfId>,
}

/// The sizes of a job: its features and its scores.
pub open spec fn job_sizes(jobs: Seq<ScoreJob>, width: int) -> Seq<(u64, u64)> {
    Seq::new(
        jobs.len(),
        |i: int|
            (
                feature_bytes(jobs[i].frames as int, width) as u64,
                feature_bytes(jobs[i].frames as int, jobs[i].sel@.len() as int) as u64,
            ),
    )
}

/// Every job fits into one dispatch, and its sizes can be counted.
pub open spec fn jobs_fit(jobs: Seq<ScoreJob>, width: int, max_workgroups: int) -> bool {
    forall|i: int|
        0 <= i < jobs.len() ==> (#[trigger] jobs[i]).frames <= max_workgroups * FRAMES_PER_WG
            && feature_bytes(jobs[i].frames as int, width) <= u64::MAX && feature_bytes(
            jobs[i].frames as int,
            jobs[i].sel@.len() as int,
        ) <= u64::MAX
}

/// Group jobs so that the features and the scores of each group fit into a buffer of `cap` bytes.
pub fn job_groups(jobs: &Vec<ScoreJob>, padded: usize, cap: u64, max_workgroups: u32) -> (r: Vec<
    (usize, usize),
>)
    requires
        jobs_fit(jobs@, padded as int, max_workgroups as int),
    ensures
        bounds(r@) == groups_from(job_sizes(jobs@, padded as int), cap as int, 0, 0, (0, 0)),
{
    let mut sizes: Vec<(u64, u64)> = Vec::new();
    let mut i: usize = 0;
    while i < jobs.len()
        invariant
            jobs_fit(jobs@, padded as int, max_workgroups as int),
            i <= jobs@.len(),
            sizes@ == job_sizes(jobs@, padded as int).take(i as int),
        decreases jobs.len() - i,
    {
        let n: usize = jobs[i].frames;
        let m: usize = jobs[i].sel.len();
        assert(jobs@[i as int].frames == n);
        assert(n * padded >= 0) by (nonlinear_arith);
        assert(n * m >= 0) by (nonlinear_arith);
        let f: u64 = n as u64 * padded as u64 * 4;
        let s: u64 = n as u64 * m as u64 * 4;
        sizes.push((f, s));
        assert(sizes@ =~= job_sizes(jobs@, padded as int).take(i + 1));
        i += 1;
    }
    assert(sizes@ =~= job_sizes(jobs@, padded as int));
    group(&sizes, cap)
}

/// Whether all pdfs are below `num_pdfs`.
pub fn check_pdfs(pdfs: &[PdfId], num_pdfs: usize) -> (r: bool)
    ensures
        r == forall|i: int| 0 <= i < pdfs@.len() ==> #[trigger] pdfs@[i] < num_pdfs,
{
    let mut i: usize = 0;
    while i < pdfs.len()
        invariant
            i <= pdfs@.len(),
            forall|k: int| 0 <= k < i ==> #[trigger] pdfs@[k] < num_pdfs,
        decreases pdfs.len() - i,
    {
        if pdfs[i] as usize >= num_pdfs {
            return false;
        }
        i += 1;
    }
    true
}

} // verus!
