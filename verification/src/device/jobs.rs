//! The layout of a group of scoring jobs on a device.
//!
//! All jobs of a group share one buffer each for the features, the pdf lists and the scores; a
//! record per job says where its parts start.

use vstd::prelude::*;
use vstd::slice::slice_subrange;

use crate::device::groups::{div_ceil, groups_of, ScoreJob, FRAMES_PER_WG, PDFS_PER_WG};
use crate::device::score::{flat, flat_len, pad_rows_into, widened_rows};
use crate::gmm::matrix::{unflattened, Matrix};

verus! {

/// Where the parts of a job are: its features are rows of `width4` groups of four values, from
/// group `feat_off` on.
#[derive(Clone, Copy, Debug, PartialEq, Eq, Structural)]
pub struct JobRecord {
    pub frames: u32,
    pub width4: u32,
    pub sel_len: u32,
    pub sel_off: u32,
    pub feat_off: u32,
    pub out_off: u32,
}

/// The buffers of a group.
#[derive(Debug)]
pub struct GroupLayout {
    pub feats: Vec<u32>,
    pub sel: Vec<u32>,
    pub records: Vec<JobRecord>,
    /// How many scores the group has.
    pub scores: usize,
}

/// How many values a row of a job has.
pub open spec fn width_of(job: ScoreJob) -> int {
    job.expanded@.len() as int / (if job.frames > 0 {
        job.frames as int
    } else {
        1
    })
}

/// The features of the first `n` jobs, their rows padded.
pub open spec fn feats_upto(jobs: Seq<ScoreJob>, n: int, padded: int) -> Seq<u32>
    decreases n,
{
    if n <= 0 {
        seq![]
    } else {
        let j = jobs[n - 1];
        feats_upto(jobs, n - 1, padded) + flat(
            widened_rows(j.expanded@, j.frames as int, width_of(j), padded),
        )
    }
}

/// The pdfs of the first `n` jobs.
pub open spec fn sel_upto(jobs: Seq<ScoreJob>, n: int) -> Seq<u32>
    decreases n,
{
    if n <= 0 {
        seq![]
    } else {
        sel_upto(jobs, n - 1) + jobs[n - 1].sel@
    }
}

/// How many scores the first `n` jobs have.
pub open spec fn scores_upto(jobs: Seq<ScoreJob>, n: int) -> int
    decreases n,
{
    if n <= 0 {
        0
    } else {
        scores_upto(jobs, n - 1) + jobs[n - 1].frames * jobs[n - 1].sel@.len()
    }
}

/// The record of job `i`.
pub open spec fn record(jobs: Seq<ScoreJob>, padded: int, i: int) -> JobRecord {
    JobRecord {
        frames: jobs[i].frames as u32,
        width4: (padded / 4) as u32,
        sel_len: jobs[i].sel@.len() as u32,
        sel_off: sel_upto(jobs, i).len() as u32,
        feat_off: (feats_upto(jobs, i, padded).len() / 4) as u32,
        out_off: scores_upto(jobs, i) as u32,
    }
}

/// The jobs have full rows that are not wider than the padded ones, and everything can be numbered.
pub open spec fn can_lay_out(jobs: Seq<ScoreJob>, padded: int) -> bool {
    let n = jobs.len() as int;
    &&& 0 <= padded <= u32::MAX
    &&& padded % 4 == 0
    &&& forall|i: int|
        0 <= i < n ==> (#[trigger] jobs[i]).expanded@.len() == jobs[i].frames * width_of(jobs[i])
            && width_of(jobs[i]) <= padded && jobs[i].frames <= u32::MAX
    &&& feats_upto(jobs, n, padded).len() <= u32::MAX
    &&& sel_upto(jobs, n).len() <= u32::MAX
    &&& scores_upto(jobs, n) <= u32::MAX
}

proof fn totals_grow(jobs: Seq<ScoreJob>, padded: int, a: int, b: int)
    requires
        0 <= a <= b <= jobs.len(),
    ensures
        feats_upto(jobs, a, padded).len() <= feats_upto(jobs, b, padded).len(),
        sel_upto(jobs, a).len() <= sel_upto(jobs, b).len(),
        0 <= scores_upto(jobs, a) <= scores_upto(jobs, b),
    decreases b,
{
    if b > 0 {
        let j = jobs[b - 1];
        assert(0 <= j.frames * j.sel@.len()) by (nonlinear_arith);
        if a < b {
            totals_grow(jobs, padded, a, b - 1);
        } else {
            totals_grow(jobs, padded, a - 1, b - 1);
        }
    }
}

/// Every job's features start at a multiple of four.
pub proof fn features_are_aligned(jobs: Seq<ScoreJob>, padded: int, n: int)
    requires
        can_lay_out(jobs, padded),
        0 <= n <= jobs.len(),
    ensures
        feats_upto(jobs, n, padded).len() % 4 == 0,
    decreases n,
{
    if n > 0 {
        features_are_aligned(jobs, padded, n - 1);
        let j = jobs[n - 1];
        let w = width_of(j);
        let rows = widened_rows(j.expanded@, j.frames as int, w, padded);
        assert(w >= 0) by {
            if j.frames > 0 {
                vstd::arithmetic::div_mod::lemma_div_pos_is_pos(
                    j.expanded@.len() as int,
                    j.frames as int,
                );
            }
        }
        assert forall|r: int| 0 <= r < rows.len() implies (#[trigger] rows[r]).len() == padded by {
            assert(r * w >= 0 && (r + 1) * w == r * w + w && (r + 1) * w <= j.frames * w)
                by (nonlinear_arith)
                requires
                    0 <= r < j.frames,
                    w >= 0,
            ;
        }
        flat_len(rows, padded);
        let (k, p) = (rows.len() as int, padded);
        assert((k * p) % 4 == 0) by {
            let q = p / 4;
            assert(p == 4 * q);
            assert(k * p == 4 * (k * q)) by (nonlinear_arith)
                requires
                    p == 4 * q,
            ;
            assert((4 * (k * q)) % 4 == 0);
        }
    }
}

/// The scores of two different jobs do not overlap, and none is outside the buffer.
pub proof fn scores_are_apart(jobs: Seq<ScoreJob>, a: int, b: int)
    requires
        0 <= a < b < jobs.len(),
    ensures
        scores_upto(jobs, a) + jobs[a].frames * jobs[a].sel@.len() <= scores_upto(jobs, b),
        scores_upto(jobs, b) + jobs[b].frames * jobs[b].sel@.len() <= scores_upto(
            jobs,
            jobs.len() as int,
        ),
{
    totals_grow(jobs, 0, a + 1, b);
    totals_grow(jobs, 0, b + 1, jobs.len() as int);
}

/// Lay a group of jobs out.
pub fn lay_out(jobs: &Vec<ScoreJob>, padded: usize) -> (r: GroupLayout)
    requires
        can_lay_out(jobs@, padded as int),
    ensures
        r.feats@ == feats_upto(jobs@, jobs@.len() as int, padded as int),
        r.sel@ == sel_upto(jobs@, jobs@.len() as int),
        r.records@ == Seq::new(jobs@.len(), |i: int| record(jobs@, padded as int, i)),
        r.scores == scores_upto(jobs@, jobs@.len() as int),
{
    let mut feats: Vec<u32> = Vec::new();
    let mut sel: Vec<u32> = Vec::new();
    let mut records: Vec<JobRecord> = Vec::new();
    let mut scores: usize = 0;
    let mut i: usize = 0;
    while i < jobs.len()
        invariant
            can_lay_out(jobs@, padded as int),
            i <= jobs@.len(),
            feats@ == feats_upto(jobs@, i as int, padded as int),
            sel@ == sel_upto(jobs@, i as int),
            records@ == Seq::new(i as nat, |i: int| record(jobs@, padded as int, i)),
            scores == scores_upto(jobs@, i as int),
        decreases jobs.len() - i,
    {
        let j = &jobs[i];
        assert(jobs@[i as int].expanded@.len() == j.frames * width_of(*j));
        let frames: usize = if j.frames > 0 {
            j.frames
        } else {
            1
        };
        let width: usize = j.expanded.len() / frames;
        proof {
            totals_grow(jobs@, padded as int, i as int, jobs@.len() as int);
            totals_grow(jobs@, padded as int, i + 1, jobs@.len() as int);
            let (n, m) = (j.frames as int, j.sel@.len() as int);
            assert(0 <= n * m) by (nonlinear_arith)
                requires
                    0 <= n,
                    0 <= m,
            ;
        }
        records.push(
            JobRecord {
                frames: j.frames as u32,
                width4: (padded / 4) as u32,
                sel_len: j.sel.len() as u32,
                sel_off: sel.len() as u32,
                feat_off: (feats.len() / 4) as u32,
                out_off: scores as u32,
            },
        );
        pad_rows_into(&mut feats, j.expanded.as_slice(), j.frames, width, padded);
        sel.extend_from_slice(j.sel.as_slice());
        scores = scores + j.frames * j.sel.len();
        assert(records@ =~= Seq::new((i + 1) as nat, |i: int| record(jobs@, padded as int, i)));
        i += 1;
    }
    GroupLayout { feats, sel, records, scores }
}

/// Split the scores of a group by job: the scores of a job are a row per frame and a column per pdf.
pub fn split_scores(jobs: &Vec<ScoreJob>, all: &Vec<u32>) -> (r: Vec<Matrix>)
    requires
        all@.len() >= scores_upto(jobs@, jobs@.len() as int),
    ensures
        r@.len() == jobs@.len(),
        forall|i: int|
            0 <= i < jobs@.len() ==> (#[trigger] r@[i])@ == unflattened(
                jobs@[i].frames as int,
                jobs@[i].sel@.len() as int,
                all@.subrange(scores_upto(jobs@, i), scores_upto(jobs@, i + 1)),
            ),
{
    let total: usize = all.len();
    let mut out: Vec<Matrix> = Vec::new();
    let mut off: usize = 0;
    let mut i: usize = 0;
    while i < jobs.len()
        invariant
            total == all@.len(),
            all@.len() >= scores_upto(jobs@, jobs@.len() as int),
            i <= jobs@.len(),
            off == scores_upto(jobs@, i as int),
            out@.len() == i,
            forall|k: int|
                0 <= k < i ==> (#[trigger] out@[k])@ == unflattened(
                    jobs@[k].frames as int,
                    jobs@[k].sel@.len() as int,
                    all@.subrange(scores_upto(jobs@, k), scores_upto(jobs@, k + 1)),
                ),
        decreases jobs.len() - i,
    {
        let frames: usize = jobs[i].frames;
        let cols: usize = jobs[i].sel.len();
        proof {
            totals_grow(jobs@, 0, i as int, i + 1);
            totals_grow(jobs@, 0, i + 1, jobs@.len() as int);
            assert(0 <= frames * cols) by (nonlinear_arith);
        }
        let n: usize = frames * cols;
        let mut data: Vec<u32> = Vec::new();
        data.extend_from_slice(slice_subrange(all.as_slice(), off, off + n));
        assert(data@ =~= all@.subrange(
            scores_upto(jobs@, i as int),
            scores_upto(jobs@, i + 1),
        ));
        out.push(Matrix::from_data(frames, cols, &data));
        off += n;
        i += 1;
    }
    out
}

/// How many workgroups a job needs in each direction; none if it has no frames or no pdfs.
pub fn dispatch(frames: u32, pdfs: u32) -> (r: Option<(u32, u32)>)
    ensures
        r == (if frames == 0 || pdfs == 0 {
            None
        } else {
            Some(
                (
                    groups_of(frames as int, FRAMES_PER_WG as int) as u32,
                    groups_of(pdfs as int, PDFS_PER_WG as int) as u32,
                ),
            )
        }),
{
    if frames == 0 || pdfs == 0 {
        None
    } else {
        Some((div_ceil(frames, FRAMES_PER_WG), div_ceil(pdfs, PDFS_PER_WG)))
    }
}

/// How many bytes the buffers of a device can take.
#[derive(Clone, Copy, Debug, PartialEq, Eq, Structural)]
pub struct Capacity {
    pub feats: u64,
    pub sel: u64,
    pub jobs: u64,
    pub scores: u64,
}

/// The larger one.
pub open spec fn max_of(a: u64, b: u64) -> u64 {
    if a >= b {
        a
    } else {
        b
    }
}

/// The capacity that a buffer grows to: not less than it had, than is needed, or than four.
pub open spec fn grown(had: u64, need: u64) -> u64 {
    max_of(max_of(had, need), 4)
}

/// The buffers can take what is needed.
pub open spec fn has_room(c: Capacity, need: Capacity) -> bool {
    c.feats >= need.feats && c.sel >= need.sel && c.jobs >= need.jobs && c.scores >= need.scores
}

fn grow(had: u64, need: u64) -> (r: u64)
    ensures
        r == grown(had, need),
{
    let m: u64 = if had >= need {
        had
    } else {
        need
    };
    if m >= 4 {
        m
    } else {
        4
    }
}

/// The capacity after making room; none if the buffers have room already.
pub fn ensure_scratch(have: Option<Capacity>, need: Capacity) -> (r: Option<Capacity>)
    ensures
        r is None <==> (have matches Some(c) && has_room(c, need)),
        r matches Some(c) ==> has_room(c, need) && c == (Capacity {
            feats: grown(
                if have is Some {
                    have->0.feats
                } else {
                    0
                },
                need.feats,
            ),
            sel: grown(
                if have is Some {
                    have->0.sel
                } else {
                    0
                },
                need.sel,
            ),
            jobs: grown(
                if have is Some {
                    have->0.jobs
                } else {
                    0
                },
                need.jobs,
            ),
            scores: grown(
                if have is Some {
                    have->0.scores
                } else {
                    0
                },
                need.scores,
            ),
        }),
{
    let had: Capacity = match have {
        Some(c) => c,
        None => Capacity { feats: 0, sel: 0, jobs: 0, scores: 0 },
    };
    if have.is_some() && had.feats >= need.feats && had.sel >= need.sel && had.jobs >= need.jobs
        && had.scores >= need.scores {
        return None;
    }
    Some(
        Capacity {
            feats: grow(had.feats, need.feats),
            sel: grow(had.sel, need.sel),
            jobs: grow(had.jobs, need.jobs),
            scores: grow(had.scores, need.scores),
        },
    )
}

/// The capacity of a buffer that is made for `need` bytes: half as much again, up to a multiple of
/// 256.
pub open spec fn roomy(need: int) -> int {
    let size = need / 2 * 3;
    let want = if size > need {
        size
    } else {
        need
    };
    (want + 255) / 256 * 256
}

/// The capacity that a buffer needs for `bytes` bytes; none if it has it already.
pub fn scratch_capacity(have: Option<u64>, bytes: u64) -> (r: Option<u64>)
    requires
        bytes <= 0x7fff_ffff_ffff_ffff,
    ensures
        ({
            let need = max_of(bytes, 4);
            r == (if have is Some && have->0 >= need {
                None::<u64>
            } else {
                Some(roomy(need as int) as u64)
            })
        }),
        r matches Some(c) ==> c >= bytes && c >= 4,
{
    let need: u64 = if bytes >= 4 {
        bytes
    } else {
        4
    };
    match have {
        Some(c) => {
            if c >= need {
                return None;
            }
        },
        None => {},
    }
    let size: u64 = need / 2 * 3;
    let want: u64 = if size > need {
        size
    } else {
        need
    };
    Some((want + 255) / 256 * 256)
}

} // verus!
