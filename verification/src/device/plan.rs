//! The work list of a batched accumulation.
//!
//! The frames of a batch are sorted by pdf, so that every component of a pdf sums over one range of
//! frames, and only the components of pdfs that occur get any work.

use vstd::prelude::*;

use crate::device::groups::{padded, padded_width};
use crate::float::{ONE, ZERO};
use crate::gmm::matrix::{Matrix, MatrixView};
use crate::types::PdfId;

verus! {

/// How many of the first `n` frames have pdf `p`.
pub open spec fn count_of(pdfs: Seq<u32>, p: int, n: int) -> int
    decreases n,
{
    if n <= 0 {
        0
    } else {
        count_of(pdfs, p, n - 1) + if pdfs[n - 1] == p {
            1int
        } else {
            0
        }
    }
}

/// Which of the first `n` frames have pdf `p`, in order.
pub open spec fn frames_of(pdfs: Seq<u32>, p: int, n: int) -> Seq<int>
    decreases n,
{
    if n <= 0 {
        seq![]
    } else if pdfs[n - 1] == p {
        frames_of(pdfs, p, n - 1).push(n - 1)
    } else {
        frames_of(pdfs, p, n - 1)
    }
}

/// How many frames have a pdf below `p`.
pub open spec fn start_of(pdfs: Seq<u32>, p: int) -> int
    decreases p,
{
    if p <= 0 {
        0
    } else {
        start_of(pdfs, p - 1) + count_of(pdfs, p - 1, pdfs.len() as int)
    }
}

/// The frames sorted by pdf, those of one pdf in order: the frames of pdf `p` stand from
/// `start_of(p)` on.
pub open spec fn is_sorted_by_pdf(bucket: Seq<u32>, pdfs: Seq<u32>, num_pdfs: int) -> bool {
    &&& bucket.len() == pdfs.len()
    &&& forall|p: int, k: int|
        #![trigger frames_of(pdfs, p, pdfs.len() as int)[k]]
        0 <= p < num_pdfs && 0 <= k < count_of(pdfs, p, pdfs.len() as int) ==> bucket[start_of(
            pdfs,
            p,
        ) + k] == frames_of(pdfs, p, pdfs.len() as int)[k]
}

/// The components of pdf `p`.
pub open spec fn components(offsets: Seq<u32>, p: int) -> int {
    offsets[p + 1] - offsets[p]
}

/// Where the posteriors of frame `t` start: after one for every component of the frames before.
pub open spec fn posterior_start(pdfs: Seq<u32>, offsets: Seq<u32>, t: int) -> int
    decreases t,
{
    if t <= 0 {
        0
    } else {
        posterior_start(pdfs, offsets, t - 1) + components(offsets, pdfs[t - 1] as int)
    }
}

/// A component that sums over frames: their range among the sorted ones, its number within its pdf,
/// and the pdf.
#[derive(Clone, Copy, Debug, PartialEq, Eq, Structural)]
pub struct ActiveGauss {
    pub start: u32,
    pub end: u32,
    pub comp: u32,
    pub pdf: u32,
}

/// The first `c` components of pdf `p`.
pub open spec fn active_in(pdfs: Seq<u32>, p: int, c: int) -> Seq<ActiveGauss> {
    Seq::new(
        c as nat,
        |k: int|
            ActiveGauss {
                start: start_of(pdfs, p) as u32,
                end: start_of(pdfs, p + 1) as u32,
                comp: k as u32,
                pdf: p as u32,
            },
    )
}

/// The components of the first `n` pdfs, as far as these occur.
pub open spec fn active_upto(pdfs: Seq<u32>, offsets: Seq<u32>, n: int) -> Seq<ActiveGauss>
    decreases n,
{
    if n <= 0 {
        seq![]
    } else if count_of(pdfs, n - 1, pdfs.len() as int) == 0 {
        active_upto(pdfs, offsets, n - 1)
    } else {
        active_upto(pdfs, offsets, n - 1) + active_in(pdfs, n - 1, components(offsets, n - 1))
    }
}

/// Counts are not negative, and as many as the listed frames.
pub proof fn count_lists(pdfs: Seq<u32>, p: int, n: int)
    requires
        0 <= n <= pdfs.len(),
    ensures
        0 <= count_of(pdfs, p, n) <= n,
        frames_of(pdfs, p, n).len() == count_of(pdfs, p, n),
        forall|k: int|
            0 <= k < count_of(pdfs, p, n) ==> 0 <= #[trigger] frames_of(pdfs, p, n)[k] < n
                && pdfs[frames_of(pdfs, p, n)[k]] == p,
    decreases n,
{
    if n > 0 {
        count_lists(pdfs, p, n - 1);
    }
}

proof fn count_grows(pdfs: Seq<u32>, p: int, a: int, b: int)
    requires
        0 <= a <= b <= pdfs.len(),
    ensures
        count_of(pdfs, p, a) <= count_of(pdfs, p, b),
    decreases b,
{
    if a < b {
        count_grows(pdfs, p, a, b - 1);
    }
}

proof fn start_grows(pdfs: Seq<u32>, a: int, b: int)
    requires
        0 <= a <= b,
    ensures
        0 <= start_of(pdfs, a) <= start_of(pdfs, b),
    decreases b,
{
    if b > 0 {
        count_lists(pdfs, b - 1, pdfs.len() as int);
        if a < b {
            start_grows(pdfs, a, b - 1);
        } else {
            start_grows(pdfs, a - 1, b - 1);
        }
    }
}

/// The sum of the counts of the first `p` pdfs over the first `n` frames.
spec fn total(pdfs: Seq<u32>, p: int, n: int) -> int
    decreases p,
{
    if p <= 0 {
        0
    } else {
        total(pdfs, p - 1, n) + count_of(pdfs, p - 1, n)
    }
}

proof fn total_steps(pdfs: Seq<u32>, p: int, n: int)
    requires
        0 < n <= pdfs.len(),
        0 <= p,
    ensures
        total(pdfs, p, n) == total(pdfs, p, n - 1) + (if pdfs[n - 1] < p {
            1int
        } else {
            0
        }),
    decreases p,
{
    if p > 0 {
        total_steps(pdfs, p - 1, n);
    }
}

proof fn total_is_all(pdfs: Seq<u32>, p: int, n: int)
    requires
        0 <= n <= pdfs.len(),
        0 <= p,
        forall|t: int| 0 <= t < n ==> #[trigger] pdfs[t] < p,
    ensures
        total(pdfs, p, n) == n,
    decreases n,
{
    if n > 0 {
        total_is_all(pdfs, p, n - 1);
        total_steps(pdfs, p, n);
    } else {
        total_of_none(pdfs, p);
    }
}

proof fn total_of_none(pdfs: Seq<u32>, p: int)
    requires
        0 <= p,
    ensures
        total(pdfs, p, 0) == 0,
    decreases p,
{
    if p > 0 {
        total_of_none(pdfs, p - 1);
    }
}

proof fn start_is_total(pdfs: Seq<u32>, p: int)
    requires
        0 <= p,
    ensures
        start_of(pdfs, p) == total(pdfs, p, pdfs.len() as int),
    decreases p,
{
    if p > 0 {
        start_is_total(pdfs, p - 1);
    }
}

/// The ranges of the pdfs cover all frames.
pub proof fn ranges_cover_all(pdfs: Seq<u32>, num_pdfs: int)
    requires
        0 <= num_pdfs,
        forall|t: int| 0 <= t < pdfs.len() ==> #[trigger] pdfs[t] < num_pdfs,
    ensures
        start_of(pdfs, num_pdfs) == pdfs.len(),
{
    start_is_total(pdfs, num_pdfs);
    total_is_all(pdfs, num_pdfs, pdfs.len() as int);
}

/// Every frame in the range of a pdf has that pdf.
pub proof fn range_has_one_pdf(bucket: Seq<u32>, pdfs: Seq<u32>, num_pdfs: int, p: int, k: int)
    requires
        is_sorted_by_pdf(bucket, pdfs, num_pdfs),
        0 <= p < num_pdfs,
        start_of(pdfs, p) <= k < start_of(pdfs, p + 1),
        pdfs.len() <= u32::MAX,
    ensures
        pdfs[bucket[k] as int] == p,
{
    count_lists(pdfs, p, pdfs.len() as int);
    let i = k - start_of(pdfs, p);
    assert(bucket[start_of(pdfs, p) + i] == frames_of(pdfs, p, pdfs.len() as int)[i]);
}

/// The pdfs of the frames, counted: in place `p + 1` how many have pdf `p`.
fn count_pdfs(pdfs: &Vec<u32>, num_pdfs: usize) -> (r: Vec<u32>)
    requires
        num_pdfs < usize::MAX,
        pdfs@.len() <= u32::MAX,
        forall|t: int| 0 <= t < pdfs@.len() ==> #[trigger] pdfs@[t] < num_pdfs,
    ensures
        r@.len() == num_pdfs + 1,
        r@[0] == 0,
        forall|p: int|
            0 <= p < num_pdfs ==> #[trigger] r@[p + 1] == count_of(pdfs@, p, pdfs@.len() as int),
{
    let mut counts: Vec<u32> = Vec::new();
    let mut i: usize = 0;
    while i < num_pdfs + 1
        invariant
            num_pdfs < usize::MAX,
            i <= num_pdfs + 1,
            counts@.len() == i,
            forall|p: int| 0 <= p < i ==> #[trigger] counts@[p] == 0,
        decreases num_pdfs + 1 - i,
    {
        counts.push(0);
        i += 1;
    }
    let mut t: usize = 0;
    while t < pdfs.len()
        invariant
            num_pdfs < usize::MAX,
            pdfs@.len() <= u32::MAX,
            forall|t: int| 0 <= t < pdfs@.len() ==> #[trigger] pdfs@[t] < num_pdfs,
            t <= pdfs@.len(),
            counts@.len() == num_pdfs + 1,
            counts@[0] == 0,
            forall|p: int|
                0 <= p < num_pdfs ==> #[trigger] counts@[p + 1] == count_of(pdfs@, p, t as int),
        decreases pdfs.len() - t,
    {
        let p: usize = pdfs[t] as usize;
        let ghost before = counts@;
        proof {
            count_lists(pdfs@, p as int, t as int);
            assert(counts@[p as int + 1] == count_of(pdfs@, p as int, t as int));
        }
        let c: u32 = counts[p + 1];
        counts.set(p + 1, c + 1);
        proof {
            assert forall|q: int| 0 <= q < num_pdfs implies #[trigger] counts@[q + 1] == count_of(
                pdfs@,
                q,
                t + 1,
            ) by {
                assert(before[q + 1] == count_of(pdfs@, q, t as int));
            }
        }
        t += 1;
    }
    counts
}

/// Where the frames of every pdf start, and, last, where they end.
fn find_starts(pdfs: &Vec<u32>, num_pdfs: usize) -> (r: Vec<u32>)
    requires
        num_pdfs < usize::MAX,
        pdfs@.len() <= u32::MAX,
        forall|t: int| 0 <= t < pdfs@.len() ==> #[trigger] pdfs@[t] < num_pdfs,
    ensures
        r@ == Seq::new((num_pdfs + 1) as nat, |p: int| start_of(pdfs@, p) as u32),
        forall|p: int| 0 <= p <= num_pdfs ==> #[trigger] r@[p] == start_of(pdfs@, p),
{
    let mut counts = count_pdfs(pdfs, num_pdfs);
    let mut p: usize = 0;
    proof {
        ranges_cover_all(pdfs@, num_pdfs as int);
    }
    while p < num_pdfs
        invariant
            num_pdfs < usize::MAX,
            pdfs@.len() <= u32::MAX,
            start_of(pdfs@, num_pdfs as int) == pdfs@.len(),
            p <= num_pdfs,
            counts@.len() == num_pdfs + 1,
            forall|q: int| 0 <= q <= p ==> #[trigger] counts@[q] == start_of(pdfs@, q),
            forall|q: int|
                p <= q < num_pdfs ==> #[trigger] counts@[q + 1] == count_of(
                    pdfs@,
                    q,
                    pdfs@.len() as int,
                ),
        decreases num_pdfs - p,
    {
        let ghost before = counts@;
        proof {
            start_grows(pdfs@, p + 1, num_pdfs as int);
            assert(counts@[p as int + 1] == count_of(pdfs@, p as int, pdfs@.len() as int));
        }
        let c: u32 = counts[p + 1];
        let s: u32 = counts[p];
        counts.set(p + 1, c + s);
        proof {
            assert forall|q: int| p + 1 <= q < num_pdfs implies #[trigger] counts@[q + 1]
                == count_of(pdfs@, q, pdfs@.len() as int) by {
                assert(before[q + 1] == count_of(pdfs@, q, pdfs@.len() as int));
            }
        }
        p += 1;
    }
    assert(counts@ =~= Seq::new((num_pdfs + 1) as nat, |p: int| start_of(pdfs@, p) as u32));
    counts
}

/// Sort the frames by pdf.
fn sort_frames(pdfs: &Vec<u32>, starts: &Vec<u32>, num_pdfs: usize) -> (r: Vec<u32>)
    requires
        num_pdfs < usize::MAX,
        pdfs@.len() <= u32::MAX,
        forall|t: int| 0 <= t < pdfs@.len() ==> #[trigger] pdfs@[t] < num_pdfs,
        starts@.len() == num_pdfs + 1,
        forall|p: int| 0 <= p <= num_pdfs ==> #[trigger] starts@[p] == start_of(pdfs@, p),
    ensures
        is_sorted_by_pdf(r@, pdfs@, num_pdfs as int),
{
    let n: usize = pdfs.len();
    let mut cursor: Vec<u32> = starts.clone();
    let mut bucket: Vec<u32> = Vec::new();
    let mut i: usize = 0;
    while i < n
        invariant
            i <= n,
            bucket@.len() == i,
        decreases n - i,
    {
        bucket.push(0);
        i += 1;
    }
    let mut t: usize = 0;
    proof {
        ranges_cover_all(pdfs@, num_pdfs as int);
    }
    while t < n
        invariant
            n == pdfs@.len(),
            n <= u32::MAX,
            forall|t: int| 0 <= t < n ==> #[trigger] pdfs@[t] < num_pdfs,
            start_of(pdfs@, num_pdfs as int) == n,
            t <= n,
            bucket@.len() == n,
            cursor@.len() == num_pdfs + 1,
            forall|p: int|
                0 <= p < num_pdfs ==> #[trigger] cursor@[p] == start_of(pdfs@, p) + count_of(
                    pdfs@,
                    p,
                    t as int,
                ),
            forall|p: int, k: int|
                #![trigger frames_of(pdfs@, p, t as int)[k]]
                0 <= p < num_pdfs && 0 <= k < count_of(pdfs@, p, t as int) ==> bucket@[start_of(
                    pdfs@,
                    p,
                ) + k] == frames_of(pdfs@, p, t as int)[k],
        decreases n - t,
    {
        let p: usize = pdfs[t] as usize;
        let ghost before = bucket@;
        let ghost old_cursor = cursor@;
        proof {
            count_lists(pdfs@, p as int, t as int);
            count_grows(pdfs@, p as int, t + 1, n as int);
            start_grows(pdfs@, p as int, p as int + 1);
            start_grows(pdfs@, p as int + 1, num_pdfs as int);
            assert(cursor@[p as int] == start_of(pdfs@, p as int) + count_of(
                pdfs@,
                p as int,
                t as int,
            ));
        }
        let slot: u32 = cursor[p];
        bucket.set(slot as usize, t as u32);
        cursor.set(p, slot + 1);
        proof {
            assert forall|q: int| 0 <= q < num_pdfs implies #[trigger] cursor@[q] == start_of(
                pdfs@,
                q,
            ) + count_of(pdfs@, q, t + 1) by {
                assert(old_cursor[q] == start_of(pdfs@, q) + count_of(pdfs@, q, t as int));
            }
            assert forall|q: int, k: int|
                #![trigger frames_of(pdfs@, q, t + 1)[k]]
                0 <= q < num_pdfs && 0 <= k < count_of(pdfs@, q, t + 1) implies bucket@[start_of(
                pdfs@,
                q,
            ) + k] == frames_of(pdfs@, q, t + 1)[k] by {
                count_lists(pdfs@, q, t as int);
                count_grows(pdfs@, q, t + 1, n as int);
                start_grows(pdfs@, 0, q);
                start_grows(pdfs@, q + 1, num_pdfs as int);
                assert(0 <= start_of(pdfs@, q) + k < n);
                if q == p && k == count_of(pdfs@, q, t as int) {
                    assert(start_of(pdfs@, q) + k == slot);
                    assert(frames_of(pdfs@, q, t + 1)[k] == t);
                } else {
                    assert(k < count_of(pdfs@, q, t as int));
                    assert(frames_of(pdfs@, q, t + 1)[k] == frames_of(pdfs@, q, t as int)[k]);
                    assert(before[start_of(pdfs@, q) + k] == frames_of(pdfs@, q, t as int)[k]);
                    if q < p {
                        start_grows(pdfs@, q + 1, p as int);
                    } else if q > p {
                        start_grows(pdfs@, p as int + 1, q);
                    }
                    assert(start_of(pdfs@, q) + k != slot);
                }
            }
        }
        t += 1;
    }
    bucket
}

/// A batch of utterances: the feature rows of each, the pdf of every frame, and the weights of the
/// frames, if they are weighted.
#[verifier::ext_equal]
pub struct BatchView {
    pub feats: Seq<MatrixView>,
    pub pdfs: Seq<Seq<u32>>,
    pub weights: Option<Seq<Seq<u32>>>,
}

/// What lists of lists are.
pub open spec fn lists(v: Seq<Vec<u32>>) -> Seq<Seq<u32>> {
    Seq::new(v.len(), |i: int| v[i]@)
}

/// What feature matrices are.
pub open spec fn matrices(v: Seq<Matrix>) -> Seq<MatrixView> {
    Seq::new(v.len(), |i: int| v[i]@)
}

/// What a batch is.
pub open spec fn batch(
    feats: Seq<Matrix>,
    pdfs: Seq<Vec<u32>>,
    weights: Option<Vec<Vec<u32>>>,
) -> BatchView {
    BatchView {
        feats: matrices(feats),
        pdfs: lists(pdfs),
        weights: match weights {
            Some(w) => Some(lists(w@)),
            None => None,
        },
    }
}

impl BatchView {
    /// How many frames of utterance `i` count: as many as have both features and a pdf.
    pub open spec fn used(self, i: int) -> int {
        if self.pdfs[i].len() < self.feats[i].rows.len() {
            self.pdfs[i].len() as int
        } else {
            self.feats[i].rows.len() as int
        }
    }

    /// The pdfs of the frames of the first `n` utterances.
    pub open spec fn flat_pdfs(self, n: int) -> Seq<u32>
        decreases n,
    {
        if n <= 0 {
            seq![]
        } else {
            self.flat_pdfs(n - 1) + self.pdfs[n - 1].take(self.used(n - 1))
        }
    }

    /// The weight of frame `t` of utterance `i`.
    pub open spec fn weight(self, i: int, t: int) -> u32 {
        match self.weights {
            Some(w) => w[i][t],
            None => ONE,
        }
    }

    /// The weights of the frames of the first `n` utterances.
    pub open spec fn flat_weights(self, n: int) -> Seq<u32>
        decreases n,
    {
        if n <= 0 {
            seq![]
        } else {
            self.flat_weights(n - 1) + Seq::new(
                self.used(n - 1) as nat,
                |t: int| self.weight(n - 1, t),
            )
        }
    }

    /// The features of the first `t` frames of utterance `i`, one padded row after the other.
    pub open spec fn flat_rows(self, i: int, t: int, dim: int) -> Seq<u32>
        decreases t,
    {
        if t <= 0 {
            seq![]
        } else {
            self.flat_rows(i, t - 1, dim) + padded_row(self.feats[i].rows[t - 1], dim)
        }
    }

    /// The features of the frames of the first `n` utterances.
    pub open spec fn flat_feats(self, n: int, dim: int) -> Seq<u32>
        decreases n,
    {
        if n <= 0 {
            seq![]
        } else {
            self.flat_feats(n - 1, dim) + self.flat_rows(n - 1, self.used(n - 1), dim)
        }
    }

    /// The batch can be planned for a model: there is a pdf list and, if weighted, enough weights
    /// for every utterance; the rows have the model's dimension; the pdfs are the model's; and
    /// frames and posteriors can be numbered.
    pub open spec fn fits(self, offsets: Seq<u32>, dim: int) -> bool {
        let n = self.feats.len() as int;
        let all = self.flat_pdfs(n);
        &&& self.pdfs.len() == n
        &&& self.weights matches Some(w) ==> w.len() == n && forall|i: int|
            0 <= i < n ==> (#[trigger] w[i]).len() >= self.used(i)
        &&& forall|i: int| 0 <= i < n ==> (#[trigger] self.feats[i]).wf() && self.feats[i].cols == dim
        &&& 0 < offsets.len()
        &&& forall|p: int| 0 <= p < offsets.len() - 1 ==> #[trigger] offsets[p] <= offsets[p + 1]
        &&& forall|t: int| 0 <= t < all.len() ==> #[trigger] all[t] < offsets.len() - 1
        &&& all.len() <= u32::MAX
        &&& posterior_start(all, offsets, all.len() as int) <= u32::MAX
    }
}

/// A row with zeros up to a multiple of four.
pub open spec fn padded_row(row: Seq<u32>, dim: int) -> Seq<u32> {
    row.take(dim) + Seq::new((padded(dim) - dim) as nat, |k: int| ZERO)
}

/// Everything that an accumulation on a device needs, laid out flat.
#[derive(Debug)]
pub struct Plan {
    /// The features, every row padded to `xpad` values.
    pub feats: Vec<u32>,
    pub xpad: usize,
    pub frame_pdf: Vec<u32>,
    pub frame_weight: Vec<u32>,
    /// Where the posteriors of every frame start.
    pub post_off: Vec<u32>,
    pub post_len: usize,
    /// The frames sorted by pdf.
    pub bucket: Vec<u32>,
    /// The components that sum over frames.
    pub active: Vec<ActiveGauss>,
    pub frames: usize,
}

/// The plan is the one for a batch.
pub open spec fn is_plan(p: Plan, b: BatchView, offsets: Seq<u32>, dim: int) -> bool {
    let n = b.feats.len() as int;
    let pdfs = b.flat_pdfs(n);
    let num_pdfs = offsets.len() - 1;
    &&& p.feats@ == b.flat_feats(n, dim)
    &&& p.xpad == padded(dim)
    &&& p.frame_pdf@ == pdfs
    &&& p.frame_weight@ == b.flat_weights(n)
    &&& p.post_off@ == Seq::new(
        pdfs.len(),
        |t: int| posterior_start(pdfs, offsets, t) as u32,
    )
    &&& p.post_len == posterior_start(pdfs, offsets, pdfs.len() as int)
    &&& is_sorted_by_pdf(p.bucket@, pdfs, num_pdfs)
    &&& p.active@ == active_upto(pdfs, offsets, num_pdfs)
    &&& p.frames == pdfs.len()
}

proof fn posteriors_grow(pdfs: Seq<u32>, offsets: Seq<u32>, a: int, b: int)
    requires
        0 <= a <= b <= pdfs.len(),
        forall|p: int| 0 <= p < offsets.len() - 1 ==> #[trigger] offsets[p] <= offsets[p + 1],
        forall|t: int| 0 <= t < pdfs.len() ==> #[trigger] pdfs[t] < offsets.len() - 1,
    ensures
        0 <= posterior_start(pdfs, offsets, a) <= posterior_start(pdfs, offsets, b),
    decreases b,
{
    if b > 0 {
        assert(offsets[pdfs[b - 1] as int] <= offsets[pdfs[b - 1] as int + 1]);
        if a < b {
            posteriors_grow(pdfs, offsets, a, b - 1);
        } else {
            posteriors_grow(pdfs, offsets, a - 1, b - 1);
        }
    }
}

/// Where the posteriors of every frame start, and where they end.
fn find_posteriors(pdfs: &Vec<u32>, offsets: &Vec<u32>) -> (r: (Vec<u32>, usize))
    requires
        0 < offsets@.len(),
        forall|p: int| 0 <= p < offsets@.len() - 1 ==> #[trigger] offsets@[p] <= offsets@[p + 1],
        forall|t: int| 0 <= t < pdfs@.len() ==> #[trigger] pdfs@[t] < offsets@.len() - 1,
        posterior_start(pdfs@, offsets@, pdfs@.len() as int) <= u32::MAX,
    ensures
        r.0@ == Seq::new(pdfs@.len(), |t: int| posterior_start(pdfs@, offsets@, t) as u32),
        r.1 == posterior_start(pdfs@, offsets@, pdfs@.len() as int),
{
    let mut out: Vec<u32> = Vec::new();
    let mut len: u32 = 0;
    let mut t: usize = 0;
    while t < pdfs.len()
        invariant
            0 < offsets@.len(),
            forall|p: int| 0 <= p < offsets@.len() - 1 ==> #[trigger] offsets@[p] <= offsets@[p + 1],
            forall|t: int| 0 <= t < pdfs@.len() ==> #[trigger] pdfs@[t] < offsets@.len() - 1,
            posterior_start(pdfs@, offsets@, pdfs@.len() as int) <= u32::MAX,
            t <= pdfs@.len(),
            len == posterior_start(pdfs@, offsets@, t as int),
            out@ == Seq::new(t as nat, |t: int| posterior_start(pdfs@, offsets@, t) as u32),
        decreases pdfs.len() - t,
    {
        let p: usize = pdfs[t] as usize;
        let pdf_ends: usize = offsets.len();
        proof {
            assert(p + 1 < pdf_ends);
            assert(offsets@[p as int] <= offsets@[p as int + 1]);
            posteriors_grow(pdfs@, offsets@, t + 1, pdfs@.len() as int);
        }
        out.push(len);
        len = len + (offsets[p + 1] - offsets[p]);
        assert(out@ =~= Seq::new((t + 1) as nat, |t: int| posterior_start(pdfs@, offsets@, t) as u32));
        t += 1;
    }
    (out, len as usize)
}

/// The components that sum over frames.
fn list_active(pdfs: &Vec<u32>, starts: &Vec<u32>, offsets: &Vec<u32>, num_pdfs: usize) -> (r: Vec<
    ActiveGauss,
>)
    requires
        offsets@.len() == num_pdfs + 1,
        num_pdfs <= u32::MAX,
        forall|p: int| 0 <= p < num_pdfs ==> #[trigger] offsets@[p] <= offsets@[p + 1],
        starts@.len() == num_pdfs + 1,
        forall|p: int| 0 <= p <= num_pdfs ==> #[trigger] starts@[p] == start_of(pdfs@, p),
    ensures
        r@ == active_upto(pdfs@, offsets@, num_pdfs as int),
{
    let mut out: Vec<ActiveGauss> = Vec::new();
    let mut p: usize = 0;
    while p < num_pdfs
        invariant
            offsets@.len() == num_pdfs + 1,
            num_pdfs <= u32::MAX,
            forall|p: int| 0 <= p < num_pdfs ==> #[trigger] offsets@[p] <= offsets@[p + 1],
            starts@.len() == num_pdfs + 1,
            forall|p: int| 0 <= p <= num_pdfs ==> #[trigger] starts@[p] == start_of(pdfs@, p),
            p <= num_pdfs,
            out@ == active_upto(pdfs@, offsets@, p as int),
        decreases num_pdfs - p,
    {
        let lo: u32 = starts[p];
        let hi: u32 = starts[p + 1];
        proof {
            assert(starts@[p as int] == start_of(pdfs@, p as int));
            assert(starts@[p as int + 1] == start_of(pdfs@, p as int + 1));
            assert(offsets@[p as int] <= offsets@[p as int + 1]);
        }
        if lo != hi {
            let ghost before = out@;
            let n: u32 = offsets[p + 1] - offsets[p];
            let mut c: u32 = 0;
            assert(before + active_in(pdfs@, p as int, 0) =~= before);
            while c < n
                invariant
                    c <= n,
                    p <= u32::MAX,
                    lo == start_of(pdfs@, p as int),
                    hi == start_of(pdfs@, p as int + 1),
                    out@ == before + active_in(pdfs@, p as int, c as int),
                decreases n - c,
            {
                out.push(ActiveGauss { start: lo, end: hi, comp: c, pdf: p as u32 });
                assert(out@ =~= before + active_in(pdfs@, p as int, c + 1));
                c += 1;
            }
        }
        p += 1;
    }
    out
}

/// Add a padded row.
fn push_row(out: &mut Vec<u32>, row: &Vec<u32>, dim: usize, xpad: usize)
    requires
        row@.len() == dim,
        xpad == padded(dim as int),
        dim <= xpad,
    ensures
        final(out)@ == old(out)@ + padded_row(row@, dim as int),
{
    let ghost before = out@;
    out.extend_from_slice(row.as_slice());
    assert(row@.take(dim as int) =~= row@);
    let mut k: usize = dim;
    while k < xpad
        invariant
            dim <= k <= xpad,
            out@ == before + row@ + Seq::new((k - dim) as nat, |k: int| ZERO),
        decreases xpad - k,
    {
        out.push(ZERO);
        assert(out@ =~= before + row@ + Seq::new((k + 1 - dim) as nat, |k: int| ZERO));
        k += 1;
    }
    assert(out@ =~= before + padded_row(row@, dim as int));
}

/// Lay a batch out: the features, pdfs and weights of its frames one after the other, the frames
/// sorted by pdf, and the components that have frames to sum over.
pub fn plan(
    feats: &Vec<Matrix>,
    pdf_per_frame: &Vec<Vec<PdfId>>,
    weights: &Option<Vec<Vec<u32>>>,
    offsets: &Vec<u32>,
    dim: usize,
) -> (r: Plan)
    requires
        batch(feats@, pdf_per_frame@, *weights).fits(offsets@, dim as int),
        dim <= usize::MAX - 3,
        offsets@.len() - 1 <= u32::MAX,
    ensures
        is_plan(r, batch(feats@, pdf_per_frame@, *weights), offsets@, dim as int),
{
    let ghost b = batch(feats@, pdf_per_frame@, *weights);
    let n: usize = feats.len();
    let num_pdfs: usize = offsets.len() - 1;
    let xpad: usize = padded_width(dim);
    let mut fl: Vec<u32> = Vec::new();
    let mut frame_pdf: Vec<u32> = Vec::new();
    let mut frame_weight: Vec<u32> = Vec::new();
    let mut i: usize = 0;
    while i < n
        invariant
            b == batch(feats@, pdf_per_frame@, *weights),
            b.fits(offsets@, dim as int),
            n == feats@.len(),
            xpad == padded(dim as int),
            dim <= xpad,
            i <= n,
            fl@ == b.flat_feats(i as int, dim as int),
            frame_pdf@ == b.flat_pdfs(i as int),
            frame_weight@ == b.flat_weights(i as int),
        decreases n - i,
    {
        assert(b.feats[i as int] == feats@[i as int]@);
        assert(b.pdfs[i as int] == pdf_per_frame@[i as int]@);
        let pdfs = &pdf_per_frame[i];
        let rows = &feats[i].rows;
        let used: usize = if pdfs.len() < rows.len() {
            pdfs.len()
        } else {
            rows.len()
        };
        assert(used == b.used(i as int));
        let ghost fl0 = fl@;
        let ghost pdf0 = frame_pdf@;
        let ghost w0 = frame_weight@;
        let mut t: usize = 0;
        proof {
            assert(fl0 + b.flat_rows(i as int, 0, dim as int) =~= fl0);
            assert(pdf0 + pdfs@.take(0) =~= pdf0);
            assert(w0 + Seq::new(0, |t: int| b.weight(i as int, t)) =~= w0);
        }
        while t < used
            invariant
                b == batch(feats@, pdf_per_frame@, *weights),
                b.fits(offsets@, dim as int),
                n == feats@.len(),
                xpad == padded(dim as int),
                dim <= xpad,
                i < n,
                t <= used,
                used == b.used(i as int),
                used <= pdfs@.len(),
                used <= rows@.len(),
                pdfs@ == b.pdfs[i as int],
                rows@ == feats@[i as int].rows@,
                b.feats[i as int] == feats@[i as int]@,
                fl@ == fl0 + b.flat_rows(i as int, t as int, dim as int),
                frame_pdf@ == pdf0 + pdfs@.take(t as int),
                frame_weight@ == w0 + Seq::new(t as nat, |t: int| b.weight(i as int, t)),
            decreases used - t,
        {
            proof {
                assert(b.feats[i as int].rows[t as int] == rows@[t as int]@);
            }
            let ghost before = fl@;
            push_row(&mut fl, &rows[t], dim, xpad);
            frame_pdf.push(pdfs[t]);
            let w: u32 = match weights {
                Some(w) => {
                    assert(b.weights->0[i as int] == w@[i as int]@);
                    w[i][t]
                },
                None => ONE,
            };
            frame_weight.push(w);
            proof {
                assert(fl@ =~= fl0 + b.flat_rows(i as int, t + 1, dim as int));
                assert(frame_pdf@ =~= pdf0 + pdfs@.take(t + 1));
                assert(frame_weight@ =~= w0 + Seq::new(
                    (t + 1) as nat,
                    |t: int| b.weight(i as int, t),
                ));
            }
            t += 1;
        }
        i += 1;
    }
    let starts = find_starts(&frame_pdf, num_pdfs);
    let bucket = sort_frames(&frame_pdf, &starts, num_pdfs);
    let (post_off, post_len) = find_posteriors(&frame_pdf, offsets);
    let active = list_active(&frame_pdf, &starts, offsets, num_pdfs);
    let frames: usize = frame_pdf.len();
    Plan { feats: fl, xpad, frame_pdf, frame_weight, post_off, post_len, bucket, active, frames }
}

} // verus!
