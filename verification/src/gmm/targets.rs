//! How many components every mixture is to have.

use vstd::prelude::*;

use crate::float::{
    eval, eval_wide, is_evaluator, value, wide_at_most, wide_eq, wide_le, wide_less, wide_lt,
    wide_same, wide_value, FloatOp, WIDE_ONE, WIDE_ZERO,
};
use crate::table::list_of;

verus! {

/// Double-precision 1e-10.
pub const WIDE_TINY: u64 = 0x3ddb_7cdf_d9d7_bdbb;

/// The components given out so far, and the occupancies that decide who gets the next one. An
/// occupancy of zero asks for no more.
#[verifier::ext_equal]
pub struct Shares {
    pub comps: Seq<int>,
    pub occs: Seq<u64>,
}

/// How much a mixture with `count` components needs another one: its occupancy per component.
pub open spec fn need_of<F: Fn(FloatOp) -> u64>(occ: u64, count: int, f: F) -> u64 {
    let n = wide_value(f, FloatOp::CountWide(count as u64));
    wide_value(f, FloatOp::DivWide(occ, wide_value(f, FloatOp::AddWide(n, WIDE_TINY))))
}

/// How much mixture `i` needs another component.
pub open spec fn need<F: Fn(FloatOp) -> u64>(s: Shares, i: int, f: F) -> u64 {
    need_of(s.occs[i], s.comps[i], f)
}

/// The first of the first `n` mixtures that needs another component most.
pub open spec fn neediest<F: Fn(FloatOp) -> u64>(s: Shares, n: int, f: F) -> int
    decreases n,
{
    if n <= 1 {
        0
    } else {
        let best = neediest(s, n - 1, f);
        if wide_less(need(s, best, f), need(s, n - 1, f)) {
            n - 1
        } else {
            best
        }
    }
}

/// How many of the first `n` occupancies are not zero.
pub open spec fn asking(occs: Seq<u64>, n: int) -> int
    decreases n,
{
    if n <= 0 {
        0
    } else {
        asking(occs, n - 1) + if wide_same(occs[n - 1], WIDE_ZERO) {
            0int
        } else {
            1
        }
    }
}

/// Another component would leave mixture `i` with less than the least count for each.
pub open spec fn is_full<F: Fn(FloatOp) -> u64>(
    s: Shares,
    i: int,
    state_occs: Seq<u64>,
    min_count: u32,
    f: F,
) -> bool {
    let next = wide_value(
        f,
        FloatOp::AddWide(wide_value(f, FloatOp::CountWide(s.comps[i] as u64)), WIDE_ONE),
    );
    wide_at_most(
        state_occs[i],
        wide_value(f, FloatOp::MulWide(next, wide_value(f, FloatOp::Widen(min_count)))),
    )
}

/// One occupancy less asks when one becomes zero.
pub proof fn asking_drops(occs: Seq<u64>, i: int, n: int)
    requires
        0 <= i < occs.len(),
        0 <= n <= occs.len(),
        !wide_same(occs[i], WIDE_ZERO),
    ensures
        0 <= asking(occs, n),
        asking(occs.update(i, WIDE_ZERO), n) == asking(occs, n) - (if i < n {
            1int
        } else {
            0
        }),
    decreases n,
{
    if n > 0 {
        asking_drops(occs, i, n - 1);
    }
}

/// The number of occupancies that ask is not negative.
pub proof fn asking_is_no_less(occs: Seq<u64>, n: int)
    ensures
        0 <= asking(occs, n),
    decreases n,
{
    if n > 0 {
        asking_is_no_less(occs, n - 1);
    }
}

/// The neediest mixture is one.
pub proof fn neediest_is_one<F: Fn(FloatOp) -> u64>(s: Shares, n: int, f: F)
    requires
        1 <= n,
    ensures
        0 <= neediest(s, n, f) < n,
    decreases n,
{
    if n > 1 {
        neediest_is_one(s, n - 1, f);
    }
}

/// The shares after giving components out until there are `target`, or nobody may have more.
pub open spec fn shared_out<F: Fn(FloatOp) -> u64>(
    s: Shares,
    count: int,
    target: int,
    state_occs: Seq<u64>,
    min_count: u32,
    f: F,
) -> Shares
    decreases target - count + asking(s.occs, s.occs.len() as int),
{
    let n = s.occs.len() as int;
    let i = neediest(s, n, f);
    if count >= target || n == 0 || wide_same(s.occs[i], WIDE_ZERO) {
        s
    } else {
        proof {
            neediest_is_one(s, n, f);
            asking_drops(s.occs, i, n);
            asking_is_no_less(s.occs, n);
            asking_is_no_less(s.occs.update(i, WIDE_ZERO), n);
        }
        if is_full(s, i, state_occs, min_count, f) {
            shared_out(
                Shares { occs: s.occs.update(i, WIDE_ZERO), ..s },
                count,
                target,
                state_occs,
                min_count,
                f,
            )
        } else {
            shared_out(
                Shares { comps: s.comps.update(i, s.comps[i] + 1), ..s },
                count + 1,
                target,
                state_occs,
                min_count,
                f,
            )
        }
    }
}

/// One component for everyone, and the occupancies to the given power.
pub open spec fn first_shares<F: Fn(FloatOp) -> u64>(state_occs: Seq<u64>, power: u32, f: F) -> Shares {
    Shares {
        comps: Seq::new(state_occs.len(), |i: int| 1int),
        occs: Seq::new(state_occs.len(), |i: int| powered(state_occs[i], power, f)),
    }
}

/// An occupancy to a power, computed in single precision.
pub open spec fn powered<F: Fn(FloatOp) -> u64>(occ: u64, power: u32, f: F) -> u64 {
    wide_value(
        f,
        FloatOp::Widen(
            value(f, FloatOp::Pow(value(f, FloatOp::Narrow(occ)), power)),
        ),
    )
}

/// The components that every mixture is to have.
pub open spec fn split_targets<F: Fn(FloatOp) -> u64>(
    state_occs: Seq<u64>,
    target: int,
    power: u32,
    min_count: u32,
    f: F,
) -> Seq<int> {
    shared_out(
        first_shares(state_occs, power, f),
        state_occs.len() as int,
        target,
        state_occs,
        min_count,
        f,
    ).comps
}

/// The sum of the first `n` counts.
pub open spec fn total(comps: Seq<int>, n: int) -> int
    decreases n,
{
    if n <= 0 {
        0
    } else {
        total(comps, n - 1) + comps[n - 1]
    }
}

proof fn total_of_update(comps: Seq<int>, i: int, v: int, n: int)
    requires
        0 <= i < comps.len(),
        0 <= n <= comps.len(),
    ensures
        total(comps.update(i, v), n) == total(comps, n) + (if i < n {
            v - comps[i]
        } else {
            0
        }),
    decreases n,
{
    if n > 0 {
        total_of_update(comps, i, v, n - 1);
    }
}

proof fn total_of_ones(comps: Seq<int>, n: int)
    requires
        0 <= n <= comps.len(),
        forall|i: int| 0 <= i < n ==> #[trigger] comps[i] == 1,
    ensures
        total(comps, n) == n,
    decreases n,
{
    if n > 0 {
        total_of_ones(comps, n - 1);
    }
}

/// What a mixture has to be over to have `n` components: so many times the least count.
pub open spec fn least_occupancy<F: Fn(FloatOp) -> u64>(n: int, min_count: u32, f: F) -> u64 {
    let count = wide_value(
        f,
        FloatOp::AddWide(wide_value(f, FloatOp::CountWide((n - 1) as u64)), WIDE_ONE),
    );
    wide_value(f, FloatOp::MulWide(count, wide_value(f, FloatOp::Widen(min_count))))
}

/// A mixture with an occupancy needs another component more than one without, however many either
/// has up to the target. It is so in double precision for occupancies above zero that a division by
/// the target leaves above zero.
pub open spec fn needs_differ<F: Fn(FloatOp) -> u64>(occs: Seq<u64>, target: int, f: F) -> bool {
    forall|zero: u64, i: int, c: int, d: int|
        0 <= i < occs.len() && wide_same(zero, WIDE_ZERO) && !wide_same(occs[i], WIDE_ZERO) && 1 <= c
            <= target && 1 <= d <= target ==> wide_less(
            #[trigger] need_of(zero, c, f),
            #[trigger] need_of(occs[i], d, f),
        )
}

proof fn neediest_is_greatest<F: Fn(FloatOp) -> u64>(s: Shares, n: int, j: int, f: F)
    requires
        0 <= j < n,
    ensures
        !wide_less(need(s, neediest(s, n, f), f), need(s, j, f)),
    decreases n,
{
    if n > 1 {
        if j < n - 1 {
            neediest_is_greatest(s, n - 1, j, f);
        }
    }
}

/// What holds of the shares while components are given out: every mixture has one; those with more
/// are over what they need for them; and those that ask no more either had no occupancy, or are full.
spec fn is_sharing<F: Fn(FloatOp) -> u64>(
    s: Shares,
    count: int,
    first: Seq<u64>,
    state_occs: Seq<u64>,
    min_count: u32,
    f: F,
) -> bool {
    &&& s.comps.len() == s.occs.len() == first.len() == state_occs.len()
    &&& total(s.comps, s.comps.len() as int) == count
    &&& forall|i: int| 0 <= i < s.comps.len() ==> 1 <= #[trigger] s.comps[i] <= count
    &&& forall|i: int|
        0 <= i < s.comps.len() && #[trigger] s.comps[i] > 1 ==> !wide_at_most(
            state_occs[i],
            least_occupancy(s.comps[i], min_count, f),
        )
    &&& forall|i: int|
        0 <= i < s.occs.len() ==> if wide_same(#[trigger] s.occs[i], WIDE_ZERO) {
            wide_same(first[i], WIDE_ZERO) || is_full(s, i, state_occs, min_count, f)
        } else {
            s.occs[i] == first[i]
        }
}

proof fn sharing_keeps_within<F: Fn(FloatOp) -> u64>(
    s: Shares,
    count: int,
    target: int,
    first: Seq<u64>,
    state_occs: Seq<u64>,
    min_count: u32,
    f: F,
) -> (end: Shares)
    requires
        is_sharing(s, count, first, state_occs, min_count, f),
    ensures
        end == shared_out(s, count, target, state_occs, min_count, f),
        ({
            let sum = total(end.comps, end.comps.len() as int);
            &&& is_sharing(end, sum, first, state_occs, min_count, f)
            &&& count <= sum
            &&& sum <= target || sum == count
            &&& sum < target && end.occs.len() > 0 ==> wide_same(
                end.occs[neediest(end, end.occs.len() as int, f)],
                WIDE_ZERO,
            )
        }),
    decreases target - count + asking(s.occs, s.occs.len() as int),
{
    let n = s.occs.len() as int;
    let i = neediest(s, n, f);
    if count >= target || n == 0 || wide_same(s.occs[i], WIDE_ZERO) {
        s
    } else {
        neediest_is_one(s, n, f);
        asking_drops(s.occs, i, n);
        asking_is_no_less(s.occs, n);
        asking_is_no_less(s.occs.update(i, WIDE_ZERO), n);
        if is_full(s, i, state_occs, min_count, f) {
            let next = Shares { occs: s.occs.update(i, WIDE_ZERO), ..s };
            assert(is_full(next, i, state_occs, min_count, f));
            assert(is_sharing(next, count, first, state_occs, min_count, f)) by {
                assert forall|k: int| 0 <= k < next.occs.len() implies if wide_same(
                    #[trigger] next.occs[k],
                    WIDE_ZERO,
                ) {
                    wide_same(first[k], WIDE_ZERO) || is_full(next, k, state_occs, min_count, f)
                } else {
                    next.occs[k] == first[k]
                } by {
                    if k != i {
                        assert(next.occs[k] == s.occs[k]);
                        assert(is_full(next, k, state_occs, min_count, f) == is_full(
                            s,
                            k,
                            state_occs,
                            min_count,
                            f,
                        ));
                    }
                }
            }
            sharing_keeps_within(next, count, target, first, state_occs, min_count, f)
        } else {
            let next = Shares { comps: s.comps.update(i, s.comps[i] + 1), ..s };
            total_of_update(s.comps, i, s.comps[i] + 1, n);
            assert(is_sharing(next, count + 1, first, state_occs, min_count, f)) by {
                assert forall|k: int| 0 <= k < next.comps.len() implies 1 <= #[trigger] next.comps[k]
                    <= count + 1 by {
                    assert(1 <= s.comps[k] <= count);
                }
                assert forall|k: int|
                    0 <= k < next.comps.len() && #[trigger] next.comps[k] > 1 implies !wide_at_most(
                    state_occs[k],
                    least_occupancy(next.comps[k], min_count, f),
                ) by {
                    if k != i {
                        assert(next.comps[k] == s.comps[k]);
                    }
                }
                assert forall|k: int| 0 <= k < next.occs.len() implies if wide_same(
                    #[trigger] next.occs[k],
                    WIDE_ZERO,
                ) {
                    wide_same(first[k], WIDE_ZERO) || is_full(next, k, state_occs, min_count, f)
                } else {
                    next.occs[k] == first[k]
                } by {
                    assert(next.occs[k] == s.occs[k]);
                    if k != i {
                        assert(is_full(next, k, state_occs, min_count, f) == is_full(
                            s,
                            k,
                            state_occs,
                            min_count,
                            f,
                        ));
                    }
                }
            }
            sharing_keeps_within(next, count + 1, target, first, state_occs, min_count, f)
        }
    }
}

/// Every mixture gets a component, and together they get no more than the target, or one each where
/// that is more. A mixture with more than one is over so many times the least count.
pub proof fn targets_keep_within<F: Fn(FloatOp) -> u64>(
    state_occs: Seq<u64>,
    target: int,
    power: u32,
    min_count: u32,
    f: F,
)
    ensures
        ({
            let r = split_targets(state_occs, target, power, min_count, f);
            &&& r.len() == state_occs.len()
            &&& forall|i: int| 0 <= i < r.len() ==> #[trigger] r[i] >= 1
            &&& total(r, r.len() as int) <= target || total(r, r.len() as int) == r.len()
            &&& forall|i: int|
                0 <= i < r.len() && #[trigger] r[i] > 1 ==> !wide_at_most(
                    state_occs[i],
                    least_occupancy(r[i], min_count, f),
                )
        }),
{
    let end = targets_are_shared(state_occs, target, power, min_count, f);
}

proof fn targets_are_shared<F: Fn(FloatOp) -> u64>(
    state_occs: Seq<u64>,
    target: int,
    power: u32,
    min_count: u32,
    f: F,
) -> (end: Shares)
    ensures
        end.comps == split_targets(state_occs, target, power, min_count, f),
        ({
            let first = first_shares(state_occs, power, f).occs;
            let sum = total(end.comps, end.comps.len() as int);
            &&& is_sharing(end, sum, first, state_occs, min_count, f)
            &&& sum <= target || sum == state_occs.len()
            &&& sum < target && end.occs.len() > 0 ==> wide_same(
                end.occs[neediest(end, end.occs.len() as int, f)],
                WIDE_ZERO,
            )
        }),
{
    let s = first_shares(state_occs, power, f);
    let n = state_occs.len() as int;
    total_of_ones(s.comps, n);
    assert(is_sharing(s, n, s.occs, state_occs, min_count, f));
    sharing_keeps_within(s, n, target, s.occs, state_occs, min_count, f)
}

/// Sharing stops short of the target only when no mixture may grow: each has no occupancy left to the
/// given power, or another component would bring it to so many times the least count or below.
pub proof fn targets_are_met<F: Fn(FloatOp) -> u64>(
    state_occs: Seq<u64>,
    target: int,
    power: u32,
    min_count: u32,
    f: F,
    i: int,
)
    requires
        0 <= i < state_occs.len(),
        needs_differ(first_shares(state_occs, power, f).occs, target, f),
        ({
            let r = split_targets(state_occs, target, power, min_count, f);
            total(r, r.len() as int) < target
        }),
    ensures
        wide_same(powered(state_occs[i], power, f), WIDE_ZERO) || wide_at_most(
            state_occs[i],
            least_occupancy(
                split_targets(state_occs, target, power, min_count, f)[i] + 1,
                min_count,
                f,
            ),
        ),
{
    let end = targets_are_shared(state_occs, target, power, min_count, f);
    let first = first_shares(state_occs, power, f).occs;
    let n = end.occs.len() as int;
    let top = neediest(end, n, f);
    neediest_is_one(end, n, f);
    neediest_is_greatest(end, n, i, f);
    assert(1 <= end.comps[top] && 1 <= end.comps[i]);
    if !wide_same(end.occs[i], WIDE_ZERO) {
        assert(end.occs[i] == first[i]);
        assert(wide_less(
            need_of(end.occs[top], end.comps[top], f),
            need_of(first[i], end.comps[i], f),
        ));
    }
    assert(first[i] == powered(state_occs[i], power, f));
}

/// The counts of a list.
pub open spec fn as_ints(v: Seq<usize>) -> Seq<int> {
    Seq::new(v.len(), |i: int| v[i] as int)
}

fn find_need<F: Fn(FloatOp) -> u64>(comps: &Vec<usize>, occs: &Vec<u64>, i: usize, f: &F) -> (r: u64)
    requires
        is_evaluator(*f),
        i < comps@.len(),
        i < occs@.len(),
    ensures
        r == need(Shares { comps: as_ints(comps@), occs: occs@ }, i as int, *f),
{
    let n: u64 = eval_wide(f, FloatOp::CountWide(comps[i] as u64));
    eval_wide(f, FloatOp::DivWide(occs[i], eval_wide(f, FloatOp::AddWide(n, WIDE_TINY))))
}

fn find_neediest<F: Fn(FloatOp) -> u64>(comps: &Vec<usize>, occs: &Vec<u64>, f: &F) -> (r: usize)
    requires
        is_evaluator(*f),
        comps@.len() == occs@.len(),
        0 < occs@.len(),
    ensures
        r == neediest(Shares { comps: as_ints(comps@), occs: occs@ }, occs@.len() as int, *f),
        r < occs@.len(),
{
    let ghost s = Shares { comps: as_ints(comps@), occs: occs@ };
    let mut best: usize = 0;
    let mut i: usize = 1;
    while i < occs.len()
        invariant
            is_evaluator(*f),
            s == (Shares { comps: as_ints(comps@), occs: occs@ }),
            comps@.len() == occs@.len(),
            1 <= i <= occs@.len(),
            best < i,
            best == neediest(s, i as int, *f),
        decreases occs.len() - i,
    {
        if wide_lt(find_need(comps, occs, best, f), find_need(comps, occs, i, f)) {
            best = i;
        }
        i += 1;
    }
    best
}

/// Share `target_components` out over the mixtures in proportion to their occupancies to the given
/// power. Every mixture gets one; none gets another that would leave it less than `min_count` for
/// each. The neediest mixture comes first, and of equally needy ones the first.
pub fn get_split_targets<F: Fn(FloatOp) -> u64>(
    state_occs: &[u64],
    target_components: usize,
    power: u32,
    min_count: u32,
    f: &F,
) -> (r: Vec<usize>)
    requires
        is_evaluator(*f),
    ensures
        as_ints(r@) == split_targets(state_occs@, target_components as int, power, min_count, *f),
{
    let n: usize = state_occs.len();
    let fg: Ghost<F> = Ghost(*f);
    let occ_at = |i: usize| -> (v: u64)
        requires
            i < state_occs@.len(),
        ensures
            v == powered(state_occs@[i as int], power, fg@),
        {
            let base: u32 = eval(f, FloatOp::Narrow(state_occs[i]));
            eval_wide(f, FloatOp::Widen(eval(f, FloatOp::Pow(base, power))))
        };
    let mut occs = list_of(n, &occ_at, Ghost(|i: int| powered(state_occs@[i], power, *f)));
    let one_at = |i: usize| -> (v: usize)
        ensures
            v == 1,
        { 1 };
    let mut comps = list_of(n, &one_at, Ghost(|i: int| 1usize));
    assert(as_ints(comps@) =~= first_shares(state_occs@, power, *f).comps);
    if n == 0 {
        return comps;
    }
    let ghost want = split_targets(state_occs@, target_components as int, power, min_count, *f);
    let mut count: usize = n;
    while count < target_components
        invariant
            is_evaluator(*f),
            0 < n,
            n == state_occs@.len(),
            comps@.len() == n,
            occs@.len() == n,
            forall|i: int| 0 <= i < n ==> #[trigger] comps@[i] <= count,
            want == split_targets(state_occs@, target_components as int, power, min_count, *f),
            want == shared_out(
                Shares { comps: as_ints(comps@), occs: occs@ },
                count as int,
                target_components as int,
                state_occs@,
                min_count,
                *f,
            ).comps,
        decreases target_components - count + asking(occs@, n as int),
    {
        let ghost s = Shares { comps: as_ints(comps@), occs: occs@ };
        let i: usize = find_neediest(&comps, &occs, f);
        if wide_eq(occs[i], WIDE_ZERO) {
            return comps;
        }
        proof {
            asking_drops(occs@, i as int, n as int);
            asking_is_no_less(occs@, n as int);
        }
        let next: u64 = eval_wide(
            f,
            FloatOp::AddWide(eval_wide(f, FloatOp::CountWide(comps[i] as u64)), WIDE_ONE),
        );
        let least: u64 = eval_wide(
            f,
            FloatOp::MulWide(next, eval_wide(f, FloatOp::Widen(min_count))),
        );
        let ghost before = comps@;
        if wide_le(state_occs[i], least) {
            occs.set(i, WIDE_ZERO);
            proof {
                asking_is_no_less(occs@, n as int);
            }
        } else {
            let c: usize = comps[i];
            comps.set(i, c + 1);
            count += 1;
            assert(as_ints(comps@) =~= as_ints(before).update(i as int, c + 1));
        }
    }
    comps
}

} // verus!
