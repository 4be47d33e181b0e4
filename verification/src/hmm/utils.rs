//! Alignments: splitting them into phones, carrying them from one model to another, and turning
//! them into intervals.

use vstd::prelude::*;

use crate::hmm::construct::{pron_views, word_views};
use crate::hmm::context::{window_event, ContextDependency};
use crate::hmm::graph::NO_PRON;
use crate::hmm::topology::{classes_of, covers, prototypes_agree, same_prototype, states_of, NO_PDF};
use crate::hmm::transition::{
    hmm_state_of, id_count, ids_and_pairs_agree, index_of, pairs_and_ids_agree, state_number,
    tuple_place, ModelView, TransitionModel, Tuple,
};
use crate::order::increasing;
use crate::text::{chars_of, string_of};
use crate::tree::{answer, Tree};
use crate::types::{
    Alignment, IntervalAlignment, PdfId, PhoneId, PhoneInterval, PronView, Pronunciation,
    TransitionId, WordId, WordInterval,
};

verus! {

/// Every id is one of the model's.
pub open spec fn ids_fit(m: ModelView, a: Seq<TransitionId>) -> bool {
    forall|i: int| 0 <= i < a.len() ==> m.has_id(#[trigger] a[i] as int)
}

/// Whether the self-loops of the alignment come after the forward transitions, as the frames from
/// `i` on tell: the first change of transition state next to a self-loop decides; where there is
/// none, the ends of the alignment do.
pub open spec fn reordered_from(m: ModelView, a: Seq<TransitionId>, i: int) -> bool
    decreases a.len() - i,
{
    if i + 1 >= a.len() {
        a.len() > 0 && !m.loops(a[0] as int) && m.loops(a.last() as int)
    } else if m.owner(a[i] as int) != m.owner(a[i + 1] as int) && (m.loops(a[i] as int) || m.loops(
        a[i + 1] as int,
    )) {
        m.loops(a[i] as int)
    } else {
        reordered_from(m, a, i + 1)
    }
}

/// Whether the self-loops of an alignment come after the forward transitions.
pub fn is_reordered(tm: &TransitionModel, alignment: &[TransitionId]) -> (r: bool)
    requires
        tm.wf(),
        ids_fit(tm@, alignment@),
    ensures
        r == reordered_from(tm@, alignment@, 0),
{
    let n: usize = alignment.len();
    if n == 0 {
        return false;
    }
    let mut i: usize = 0;
    while i < n - 1
        invariant
            tm.wf(),
            ids_fit(tm@, alignment@),
            n == alignment@.len(),
            n > 0,
            i <= n - 1,
            reordered_from(tm@, alignment@, 0) == reordered_from(tm@, alignment@, i as int),
        decreases n - i,
    {
        assert(tm@.has_id(alignment@[i as int] as int) && tm@.has_id(alignment@[i + 1] as int));
        let ts1: u32 = tm.transition_id_to_transition_state(alignment[i]);
        let ts2: u32 = tm.transition_id_to_transition_state(alignment[i + 1]);
        if ts1 != ts2 {
            let loop1: bool = tm.is_self_loop(alignment[i]);
            let loop2: bool = tm.is_self_loop(alignment[i + 1]);
            if loop1 {
                return true;
            }
            if loop2 {
                return false;
            }
        }
        i += 1;
    }
    assert(tm@.has_id(alignment@[0] as int) && tm@.has_id(alignment@[n - 1] as int));
    !tm.is_self_loop(alignment[0]) && tm.is_self_loop(alignment[n - 1])
}

/// The first frame from `i` on that is no self-loop, or the end.
pub open spec fn after_loops(m: ModelView, a: Seq<TransitionId>, i: int) -> int
    decreases a.len() - i,
{
    if i < a.len() && m.loops(a[i] as int) {
        after_loops(m, a, i + 1)
    } else {
        i
    }
}

/// The phone changes between frame `i` and the next.
pub open spec fn phone_changes(m: ModelView, a: Seq<TransitionId>, i: int) -> bool {
    m.owner(a[i] as int) != m.owner(a[i + 1] as int) && m.tuple_of(a[i] as int).phone != m.tuple_of(
        a[i + 1] as int,
    ).phone
}

/// Where the phones from frame `i` on end. A phone ends with the transition that leaves it, and
/// with the self-loops after that if the alignment is reordered; failing that, where the phone
/// changes or the alignment ends.
pub open spec fn ends_from(m: ModelView, a: Seq<TransitionId>, reordered: bool, i: int) -> Seq<int>
    decreases a.len() - i,
{
    if i >= a.len() {
        Seq::empty()
    } else if m.leaves(a[i] as int) {
        let end = if reordered {
            after_loops(m, a, i + 1)
        } else {
            i + 1
        };
        if i < end <= a.len() {
            seq![end] + ends_from(m, a, reordered, end)
        } else {
            Seq::empty()
        }
    } else if i + 1 == a.len() || phone_changes(m, a, i) {
        seq![i + 1] + ends_from(m, a, reordered, i + 1)
    } else {
        ends_from(m, a, reordered, i + 1)
    }
}

/// Every phone from frame `i` on ends with the transition that leaves it.
pub open spec fn ends_well_from(m: ModelView, a: Seq<TransitionId>, reordered: bool, i: int) -> bool
    decreases a.len() - i,
{
    if i >= a.len() {
        true
    } else if m.leaves(a[i] as int) {
        let end = if reordered {
            after_loops(m, a, i + 1)
        } else {
            i + 1
        };
        i < end <= a.len() && ends_well_from(m, a, reordered, end)
    } else {
        i + 1 != a.len() && !phone_changes(m, a, i) && ends_well_from(m, a, reordered, i + 1)
    }
}

/// Where the phones of the alignment end.
pub open spec fn ends_of(m: ModelView, a: Seq<TransitionId>) -> Seq<int> {
    ends_from(m, a, reordered_from(m, a, 0), 0)
}

/// Where run `k` starts.
pub open spec fn start_of(ends: Seq<int>, k: int) -> int {
    if k == 0 {
        0
    } else {
        ends[k - 1]
    }
}

/// The alignment cut at its phone ends.
pub open spec fn runs_of(m: ModelView, a: Seq<TransitionId>) -> Seq<Seq<TransitionId>> {
    let ends = ends_of(m, a);
    Seq::new(ends.len(), |k: int| a.subrange(start_of(ends, k), ends[k]))
}

/// The run that starts with `t` starts where a phone does: with its first state, if that emits.
pub open spec fn starts_well(m: ModelView, t: TransitionId) -> bool {
    states_of(m.topo, m.tuple_of(t as int).phone)[0].pdf_class == NO_PDF || m.tuple_of(
        t as int,
    ).hmm_state == 0
}

/// The alignment is made of whole phones.
pub open spec fn split_is_ok(m: ModelView, a: Seq<TransitionId>) -> bool {
    let ends = ends_of(m, a);
    ends_well_from(m, a, reordered_from(m, a, 0), 0) && forall|k: int|
        0 <= k < ends.len() ==> starts_well(m, a[#[trigger] start_of(ends, k)])
}

/// The runs one after the other.
pub open spec fn concatenated(runs: Seq<Seq<TransitionId>>) -> Seq<TransitionId>
    decreases runs.len(),
{
    if runs.len() == 0 {
        Seq::empty()
    } else {
        concatenated(runs.drop_last()) + runs.last()
    }
}

proof fn loops_end(m: ModelView, a: Seq<TransitionId>, i: int)
    requires
        0 <= i <= a.len(),
    ensures
        i <= after_loops(m, a, i) <= a.len(),
    decreases a.len() - i,
{
    if i < a.len() && m.loops(a[i] as int) {
        loops_end(m, a, i + 1);
    }
}

/// The ends increase from past `i` to the end of the alignment.
proof fn ends_increase(m: ModelView, a: Seq<TransitionId>, reordered: bool, i: int)
    requires
        0 <= i <= a.len(),
    ensures
        forall|k: int|
            0 <= k < ends_from(m, a, reordered, i).len() ==> i < #[trigger] ends_from(
                m,
                a,
                reordered,
                i,
            )[k] <= a.len(),
        forall|j: int, k: int|
            0 <= j < k < ends_from(m, a, reordered, i).len() ==> #[trigger] ends_from(
                m,
                a,
                reordered,
                i,
            )[j] < #[trigger] ends_from(m, a, reordered, i)[k],
        i < a.len() ==> ends_from(m, a, reordered, i).len() > 0 && ends_from(
            m,
            a,
            reordered,
            i,
        ).last() == a.len(),
    decreases a.len() - i,
{
    if i < a.len() {
        loops_end(m, a, i + 1);
        let all = ends_from(m, a, reordered, i);
        if m.leaves(a[i] as int) {
            let end = if reordered {
                after_loops(m, a, i + 1)
            } else {
                i + 1
            };
            ends_increase(m, a, reordered, end);
            let rest = ends_from(m, a, reordered, end);
            assert(all =~= seq![end] + rest);
            assert forall|k: int| 0 < k < all.len() implies all[k] == rest[k - 1] by {}
        } else if i + 1 == a.len() || phone_changes(m, a, i) {
            ends_increase(m, a, reordered, i + 1);
            let rest = ends_from(m, a, reordered, i + 1);
            assert(all =~= seq![i + 1] + rest);
            assert forall|k: int| 0 < k < all.len() implies all[k] == rest[k - 1] by {}
        } else {
            ends_increase(m, a, reordered, i + 1);
        }
    }
}

proof fn first_runs_join(m: ModelView, a: Seq<TransitionId>, k: int)
    requires
        0 <= k <= ends_of(m, a).len(),
    ensures
        concatenated(runs_of(m, a).take(k)) == a.take(start_of(ends_of(m, a), k)),
    decreases k,
{
    let ends = ends_of(m, a);
    let runs = runs_of(m, a);
    ends_increase(m, a, reordered_from(m, a, 0), 0);
    if k > 0 {
        first_runs_join(m, a, k - 1);
        assert(runs.take(k).drop_last() =~= runs.take(k - 1));
        assert(runs.take(k).last() == runs[k - 1]);
        if k > 1 {
            assert(ends[k - 2] < ends[k - 1]);
        }
        assert(a.take(start_of(ends, k - 1)) + a.subrange(start_of(ends, k - 1), ends[k - 1])
            =~= a.take(ends[k - 1]));
    } else {
        assert(runs.take(0) =~= Seq::empty());
        assert(a.take(0) =~= Seq::empty());
    }
}

/// The phones of an alignment, put one after the other, are the alignment.
pub proof fn runs_join_to_the_alignment(m: ModelView, a: Seq<TransitionId>)
    ensures
        concatenated(runs_of(m, a)) == a,
{
    let ends = ends_of(m, a);
    ends_increase(m, a, reordered_from(m, a, 0), 0);
    first_runs_join(m, a, ends.len() as int);
    assert(runs_of(m, a).take(ends.len() as int) =~= runs_of(m, a));
    if a.len() > 0 {
        assert(ends.last() == a.len());
        assert(a.take(a.len() as int) =~= a);
    } else {
        assert(a.take(0) =~= a);
    }
}

/// No phone of an alignment is empty.
pub proof fn runs_are_not_empty(m: ModelView, a: Seq<TransitionId>, k: int)
    requires
        0 <= k < runs_of(m, a).len(),
    ensures
        runs_of(m, a)[k].len() > 0,
        0 <= start_of(ends_of(m, a), k) < ends_of(m, a)[k] <= a.len(),
{
    let ends = ends_of(m, a);
    ends_increase(m, a, reordered_from(m, a, 0), 0);
    if k > 0 {
        assert(ends[k - 1] < ends[k]);
    }
}

/// The run has exactly one transition that leaves its phone.
pub open spec fn leaves_once(m: ModelView, run: Seq<TransitionId>) -> bool {
    exists|k: int| #[trigger] leaves_only_at(m, run, k)
}

/// Frame `k` of the run, and no other, leaves its phone.
pub open spec fn leaves_only_at(m: ModelView, run: Seq<TransitionId>, k: int) -> bool {
    0 <= k < run.len() && forall|j: int|
        0 <= j < run.len() ==> #[trigger] m.leaves(run[j] as int) == (j == k)
}

/// The last state of every phone of the model leads nowhere.
pub open spec fn last_states_end(m: ModelView) -> bool {
    forall|i: int|
        0 <= i < m.tuples.len() ==> states_of(
            m.topo,
            (#[trigger] m.tuples[i]).phone,
        ).last().transitions.len() == 0
}

/// No transition leads back to its state and leaves its phone.
proof fn loops_do_not_leave(m: ModelView, t: int)
    requires
        last_states_end(m),
        m.has_id(t),
    ensures
        !(m.loops(t) && m.leaves(t)),
{
    ids_and_pairs_agree(m, t);
    assert(m.tuples[m.owner(t) - 1] == m.tuple_of(t));
}

proof fn skipped_are_loops(m: ModelView, a: Seq<TransitionId>, i: int)
    requires
        0 <= i <= a.len(),
    ensures
        i <= after_loops(m, a, i) <= a.len(),
        forall|j: int| i <= j < after_loops(m, a, i) ==> m.loops(#[trigger] a[j] as int),
    decreases a.len() - i,
{
    if i < a.len() && m.loops(a[i] as int) {
        skipped_are_loops(m, a, i + 1);
    }
}

/// Run `k` of those from frame `i` on, where the first one starts at `start` and nothing has left it
/// before `i`, leaves its phone once.
proof fn run_leaves_once(
    m: ModelView,
    a: Seq<TransitionId>,
    reordered: bool,
    start: int,
    i: int,
    k: int,
)
    requires
        last_states_end(m),
        ids_fit(m, a),
        0 <= start <= i <= a.len(),
        ends_well_from(m, a, reordered, i),
        forall|j: int| start <= j < i ==> !m.leaves(#[trigger] a[j] as int),
        0 <= k < ends_from(m, a, reordered, i).len(),
    ensures
        ({
            let ends = ends_from(m, a, reordered, i);
            let from = if k == 0 {
                start
            } else {
                ends[k - 1]
            };
            leaves_once(m, a.subrange(from, ends[k]))
        }),
    decreases a.len() - i,
{
    let ends = ends_from(m, a, reordered, i);
    ends_increase(m, a, reordered, i);
    if m.leaves(a[i] as int) {
        skipped_are_loops(m, a, i + 1);
        let end = if reordered {
            after_loops(m, a, i + 1)
        } else {
            i + 1
        };
        let rest = ends_from(m, a, reordered, end);
        assert(ends == seq![end] + rest);
        if k == 0 {
            let run = a.subrange(start, end);
            assert forall|j: int| 0 <= j < run.len() implies #[trigger] m.leaves(run[j] as int) == (j
                == i - start) by {
                assert(run[j] == a[start + j]);
                if start + j > i {
                    assert(m.has_id(a[start + j] as int));
                    assert(m.loops(a[start + j] as int));
                    loops_do_not_leave(m, a[start + j] as int);
                }
            }
            assert(leaves_only_at(m, run, i - start));
        } else {
            assert(ends[k] == rest[k - 1]);
            if k > 1 {
                assert(ends[k - 1] == rest[k - 2]);
            }
            run_leaves_once(m, a, reordered, end, end, k - 1);
        }
    } else {
        assert(ends == ends_from(m, a, reordered, i + 1));
        run_leaves_once(m, a, reordered, start, i + 1, k);
    }
}

/// In an alignment of whole phones every phone has exactly one transition that leaves it.
pub proof fn whole_phones_leave_once(m: ModelView, a: Seq<TransitionId>, k: int)
    requires
        last_states_end(m),
        ids_fit(m, a),
        split_is_ok(m, a),
        0 <= k < runs_of(m, a).len(),
    ensures
        leaves_once(m, runs_of(m, a)[k]),
{
    run_leaves_once(m, a, reordered_from(m, a, 0), 0, 0, k);
    if k > 0 {
        assert(start_of(ends_of(m, a), k) == ends_of(m, a)[k - 1]);
    }
}

/// The runs as sequences.
pub open spec fn run_views(runs: Seq<Vec<TransitionId>>) -> Seq<Seq<TransitionId>> {
    Seq::new(runs.len(), |k: int| runs[k]@)
}

fn copy_range(a: &[TransitionId], from: usize, to: usize) -> (r: Vec<TransitionId>)
    requires
        from <= to <= a@.len(),
    ensures
        r@ == a@.subrange(from as int, to as int),
{
    let mut out: Vec<TransitionId> = Vec::new();
    let mut i: usize = from;
    while i < to
        invariant
            from <= i <= to <= a@.len(),
            out@ == a@.subrange(from as int, i as int),
        decreases to - i,
    {
        out.push(a[i]);
        assert(out@ =~= a@.subrange(from as int, i + 1));
        i += 1;
    }
    out
}

/// Cut an alignment into phones.
pub fn split_to_phones(tm: &TransitionModel, tids: &[TransitionId]) -> (r: Vec<Vec<TransitionId>>)
    requires
        tm.wf(),
        ids_fit(tm@, tids@),
    ensures
        run_views(r@) == runs_of(tm@, tids@),
{
    split_to_phones_checked(tm, tids).0
}

/// The ends that the frames show, and whether every phone ends as it should.
fn find_ends(tm: &TransitionModel, tids: &[TransitionId], reordered: bool) -> (r: (Vec<usize>, bool))
    requires
        tm.wf(),
        ids_fit(tm@, tids@),
    ensures
        r.0@.len() == ends_from(tm@, tids@, reordered, 0).len(),
        forall|k: int|
            0 <= k < r.0@.len() ==> #[trigger] r.0@[k] == ends_from(tm@, tids@, reordered, 0)[k],
        r.1 == ends_well_from(tm@, tids@, reordered, 0),
{
    let ghost m = tm@;
    let ghost a = tids@;
    let ghost want = ends_from(m, a, reordered, 0);
    let n: usize = tids.len();
    let mut ends: Vec<usize> = Vec::new();
    let mut was_ok: bool = true;
    let mut i: usize = 0;
    let ghost mut found: Seq<int> = Seq::empty();
    proof {
        assert(found + want =~= want);
    }
    while i < n
        invariant
            tm.wf(),
            m == tm@,
            a == tids@,
            ids_fit(m, a),
            n == a.len(),
            i <= n,
            found.len() == ends@.len(),
            forall|k: int| 0 <= k < ends@.len() ==> #[trigger] ends@[k] == found[k],
            want == found + ends_from(m, a, reordered, i as int),
            ends_well_from(m, a, reordered, 0) == (was_ok && ends_well_from(
                m,
                a,
                reordered,
                i as int,
            )),
        decreases n - i,
    {
        let tid: TransitionId = tids[i];
        let ghost i0 = i as int;
        assert(m.has_id(a[i0] as int));
        if tm.is_final(tid) {
            let mut j: usize = i + 1;
            if reordered {
                while j < n && tm.is_self_loop(tids[j])
                    invariant
                        tm.wf(),
                        m == tm@,
                        a == tids@,
                        ids_fit(m, a),
                        n == a.len(),
                        i < j <= n,
                        i0 == i,
                        after_loops(m, a, i0 + 1) == after_loops(m, a, j as int),
                    decreases n - j,
                {
                    j += 1;
                }
            }
            ends.push(j);
            proof {
                let rest = ends_from(m, a, reordered, j as int);
                assert(found + (seq![j as int] + rest) =~= found.push(j as int) + rest);
                found = found.push(j as int);
            }
            i = j;
        } else {
            let mut cut: bool = i + 1 == n;
            if !cut {
                assert(m.has_id(a[i0 + 1] as int));
                let this_state: u32 = tm.transition_id_to_transition_state(tid);
                let next_state: u32 = tm.transition_id_to_transition_state(tids[i + 1]);
                cut = this_state != next_state && tm.transition_state_to_phone(this_state)
                    != tm.transition_state_to_phone(next_state);
            }
            if cut {
                was_ok = false;
                ends.push(i + 1);
                proof {
                    let rest = ends_from(m, a, reordered, i0 + 1);
                    assert(found + (seq![i0 + 1] + rest) =~= found.push(i0 + 1) + rest);
                    found = found.push(i0 + 1);
                }
            }
            i += 1;
        }
    }
    proof {
        assert(found + Seq::<int>::empty() =~= found);
    }
    (ends, was_ok)
}

/// Cut an alignment into phones, and tell whether it is made of whole phones: whether each starts
/// with the first state of its phone and ends with the transition that leaves it.
pub fn split_to_phones_checked(tm: &TransitionModel, tids: &[TransitionId]) -> (r: (
    Vec<Vec<TransitionId>>,
    bool,
))
    requires
        tm.wf(),
        ids_fit(tm@, tids@),
    ensures
        run_views(r.0@) == runs_of(tm@, tids@),
        r.1 == split_is_ok(tm@, tids@),
{
    let ghost m = tm@;
    let ghost a = tids@;
    let reordered: bool = is_reordered(tm, tids);
    let ghost want = ends_of(m, a);
    let (ends, ends_ok) = find_ends(tm, tids, reordered);
    let mut was_ok: bool = ends_ok;
    let mut out: Vec<Vec<TransitionId>> = Vec::new();
    let mut cur: usize = 0;
    let mut k: usize = 0;
    while k < ends.len()
        invariant
            tm.wf(),
            m == tm@,
            a == tids@,
            ids_fit(m, a),
            want == ends_of(m, a),
            want.len() == ends@.len(),
            forall|j: int| 0 <= j < ends@.len() ==> #[trigger] ends@[j] == want[j],
            k <= ends@.len(),
            cur == start_of(want, k as int),
            out@.len() == k,
            forall|j: int| 0 <= j < k ==> (#[trigger] out@[j])@ == runs_of(m, a)[j],
            was_ok == (ends_ok && forall|j: int|
                0 <= j < k ==> starts_well(m, a[#[trigger] start_of(want, j)])),
        decreases ends.len() - k,
    {
        let end: usize = ends[k];
        proof {
            runs_are_not_empty(m, a, k as int);
            assert(m.has_id(a[cur as int] as int));
            tm.facts();
        }
        let tstate: u32 = tm.transition_id_to_transition_state(tids[cur]);
        let phone: PhoneId = tm.transition_state_to_phone(tstate);
        assert(crate::hmm::transition::is_placed(m.topo, m.tuples[tstate - 1]));
        let states = tm.topology().topology_for_phone(phone);
        assert(states@[0]@ == states_of(m.topo, phone)[0]);
        let first_class: i32 = states[0].pdf_class;
        let bad: bool = first_class != NO_PDF && tm.transition_state_to_hmm_state(tstate) != 0;
        assert(bad == !starts_well(m, a[start_of(want, k as int)]));
        if bad {
            was_ok = false;
        }
        out.push(copy_range(tids, cur, end));
        cur = end;
        k += 1;
    }
    assert(run_views(out@) =~= runs_of(m, a));
    (out, was_ok)
}

/// The first frame from `i` on that is not of transition state `ts`, or the end.
pub open spec fn run_end(m: ModelView, a: Seq<TransitionId>, ts: int, i: int) -> int
    decreases a.len() - i,
{
    if i < a.len() && m.owner(a[i] as int) == ts {
        run_end(m, a, ts, i + 1)
    } else {
        i
    }
}

/// The first id from `i` on that is no self-loop, or the end.
pub open spec fn first_forward(m: ModelView, run: Seq<TransitionId>, i: int) -> int
    decreases run.len() - i,
{
    if i < run.len() && m.loops(run[i] as int) {
        first_forward(m, run, i + 1)
    } else {
        i
    }
}

/// The run with its forward transition moved from one end to the other. A run without one, or with
/// one in between, stays as it is.
pub open spec fn flipped_run(m: ModelView, run: Seq<TransitionId>) -> Seq<TransitionId> {
    let pos = first_forward(m, run, 0);
    if pos >= run.len() {
        run
    } else if pos == 0 {
        run.skip(1).push(run[0])
    } else if pos == run.len() - 1 {
        seq![run[pos]] + run.take(pos)
    } else {
        run
    }
}

/// The frames from `i` on, with the forward transition of each transition state's run moved from
/// one end to the other.
pub open spec fn flipped_from(m: ModelView, a: Seq<TransitionId>, i: int) -> Seq<TransitionId>
    decreases a.len() - i,
{
    if i >= a.len() {
        Seq::empty()
    } else {
        let j = run_end(m, a, m.owner(a[i] as int), i);
        if i < j <= a.len() {
            flipped_run(m, a.subrange(i, j)) + flipped_from(m, a, j)
        } else {
            Seq::empty()
        }
    }
}

proof fn run_ends(m: ModelView, a: Seq<TransitionId>, ts: int, i: int)
    requires
        0 <= i <= a.len(),
    ensures
        i <= run_end(m, a, ts, i) <= a.len(),
        forall|k: int|
            i <= k < run_end(m, a, ts, i) ==> m.owner(#[trigger] a[k] as int) == ts,
        run_end(m, a, ts, i) < a.len() ==> m.owner(a[run_end(m, a, ts, i)] as int) != ts,
    decreases a.len() - i,
{
    if i < a.len() && m.owner(a[i] as int) == ts {
        run_ends(m, a, ts, i + 1);
    }
}

/// A run that ends where it is said to.
proof fn run_end_is(m: ModelView, a: Seq<TransitionId>, ts: int, i: int, j: int)
    requires
        0 <= i <= j <= a.len(),
        forall|k: int| i <= k < j ==> m.owner(#[trigger] a[k] as int) == ts,
        j < a.len() ==> m.owner(a[j] as int) != ts,
    ensures
        run_end(m, a, ts, i) == j,
    decreases j - i,
{
    if i < j {
        run_end_is(m, a, ts, i + 1, j);
    }
}

proof fn forward_found(m: ModelView, run: Seq<TransitionId>, i: int)
    requires
        0 <= i <= run.len(),
    ensures
        i <= first_forward(m, run, i) <= run.len(),
        forall|k: int| i <= k < first_forward(m, run, i) ==> m.loops(#[trigger] run[k] as int),
        first_forward(m, run, i) < run.len() ==> !m.loops(run[first_forward(m, run, i)] as int),
    decreases run.len() - i,
{
    if i < run.len() && m.loops(run[i] as int) {
        forward_found(m, run, i + 1);
    }
}

proof fn forward_is(m: ModelView, run: Seq<TransitionId>, i: int, pos: int)
    requires
        0 <= i <= pos < run.len(),
        forall|k: int| i <= k < pos ==> m.loops(#[trigger] run[k] as int),
        !m.loops(run[pos] as int),
    ensures
        first_forward(m, run, i) == pos,
    decreases pos - i,
{
    if i < pos {
        forward_is(m, run, i + 1, pos);
    }
}

proof fn flipping_keeps_length(m: ModelView, a: Seq<TransitionId>, i: int)
    requires
        0 <= i <= a.len(),
    ensures
        flipped_from(m, a, i).len() == a.len() - i,
    decreases a.len() - i,
{
    if i < a.len() {
        let ts = m.owner(a[i] as int);
        run_ends(m, a, ts, i);
        run_ends(m, a, ts, i + 1);
        let j = run_end(m, a, ts, i);
        forward_found(m, a.subrange(i, j), 0);
        flipping_keeps_length(m, a, j);
    }
}

/// The run holds at most one forward transition, and that at one end.
pub open spec fn is_flippable(m: ModelView, run: Seq<TransitionId>) -> bool {
    ||| forall|k: int| 0 <= k < run.len() ==> m.loops(#[trigger] run[k] as int)
    ||| !m.loops(run[0] as int) && forall|k: int|
        1 <= k < run.len() ==> m.loops(#[trigger] run[k] as int)
    ||| !m.loops(run.last() as int) && forall|k: int|
        0 <= k < run.len() - 1 ==> m.loops(#[trigger] run[k] as int)
}

/// Each transition state's run from frame `i` on holds at most one forward transition, and that at
/// one end.
pub open spec fn flippable_from(m: ModelView, a: Seq<TransitionId>, i: int) -> bool
    decreases a.len() - i,
{
    if i >= a.len() {
        true
    } else {
        let j = run_end(m, a, m.owner(a[i] as int), i);
        if i < j <= a.len() {
            is_flippable(m, a.subrange(i, j)) && flippable_from(m, a, j)
        } else {
            true
        }
    }
}

proof fn flipping_a_run_twice(m: ModelView, run: Seq<TransitionId>)
    requires
        run.len() > 0,
        is_flippable(m, run),
    ensures
        flipped_run(m, flipped_run(m, run)) == run,
        flipped_run(m, run).len() == run.len(),
        forall|x: TransitionId| #[trigger] flipped_run(m, run).contains(x) ==> run.contains(x),
{
    forward_found(m, run, 0);
    let pos = first_forward(m, run, 0);
    let once = flipped_run(m, run);
    let n = run.len() as int;
    if pos < n {
        if pos == 0 {
            assert(once =~= run.skip(1).push(run[0]));
            if n == 1 {
                assert(once =~= run);
                forward_is(m, once, 0, 0);
                assert(once.skip(1).push(once[0]) =~= run);
            } else {
                assert forall|k: int| 0 <= k < n - 1 implies m.loops(#[trigger] once[k] as int) by {
                    assert(once[k] == run[k + 1]);
                }
                assert(once[n - 1] == run[0]);
                forward_is(m, once, 0, n - 1);
                assert(seq![once[n - 1]] + once.take(n - 1) =~= run);
            }
        } else {
            assert(pos == n - 1);
            assert(once =~= seq![run[n - 1]] + run.take(n - 1));
            forward_is(m, once, 0, 0);
            assert(once.skip(1).push(once[0]) =~= run);
        }
    }
    assert forall|x: TransitionId| #[trigger] once.contains(x) implies run.contains(x) by {
        let k = choose|k: int| 0 <= k < once.len() && once[k] == x;
        if pos < n && pos == 0 {
            if k < n - 1 {
                assert(run[k + 1] == x);
            } else {
                assert(run[0] == x);
            }
        } else if pos < n {
            if k == 0 {
                assert(run[n - 1] == x);
            } else {
                assert(run[k - 1] == x);
            }
        } else {
            assert(run[k] == x);
        }
    }
}

/// `run_end` sees only what follows.
proof fn run_end_of_tail(
    m: ModelView,
    a: Seq<TransitionId>,
    b: Seq<TransitionId>,
    ts: int,
    i: int,
    j: int,
)
    requires
        0 <= i <= a.len(),
        0 <= j <= b.len(),
        a.skip(i) == b.skip(j),
    ensures
        run_end(m, a, ts, i) - i == run_end(m, b, ts, j) - j,
    decreases a.len() - i,
{
    assert(a.skip(i).len() == a.len() - i);
    assert(b.skip(j).len() == b.len() - j);
    if i < a.len() {
        assert(a[i] == a.skip(i)[0]);
        assert(b[j] == b.skip(j)[0]);
        if m.owner(a[i] as int) == ts {
            assert(a.skip(i + 1) =~= a.skip(i).skip(1));
            assert(b.skip(j + 1) =~= b.skip(j).skip(1));
            run_end_of_tail(m, a, b, ts, i + 1, j + 1);
        }
    }
}

proof fn flipped_tail(m: ModelView, a: Seq<TransitionId>, b: Seq<TransitionId>, i: int, j: int)
    requires
        0 <= i <= a.len(),
        0 <= j <= b.len(),
        a.skip(i) == b.skip(j),
    ensures
        flipped_from(m, a, i) == flipped_from(m, b, j),
    decreases a.len() - i,
{
    assert(a.skip(i).len() == a.len() - i);
    assert(b.skip(j).len() == b.len() - j);
    if i < a.len() {
        assert(a[i] == a.skip(i)[0]);
        assert(b[j] == b.skip(j)[0]);
        let ts = m.owner(a[i] as int);
        run_end_of_tail(m, a, b, ts, i, j);
        run_ends(m, a, ts, i);
        run_ends(m, b, ts, j);
        let x = run_end(m, a, ts, i);
        let y = run_end(m, b, ts, j);
        if i < x {
            assert(a.skip(x) =~= a.skip(i).skip(x - i));
            assert(b.skip(y) =~= b.skip(j).skip(y - j));
            assert(a.subrange(i, x) =~= a.skip(i).take(x - i));
            assert(b.subrange(j, y) =~= b.skip(j).take(y - j));
            flipped_tail(m, a, b, x, y);
        }
    }
}

proof fn flipping_twice_from(m: ModelView, a: Seq<TransitionId>, i: int)
    requires
        0 <= i <= a.len(),
        flippable_from(m, a, i),
    ensures
        flipped_from(m, flipped_from(m, a, i), 0) == a.skip(i),
        i < a.len() ==> flipped_from(m, a, i).len() > 0 && m.owner(
            flipped_from(m, a, i)[0] as int,
        ) == m.owner(a[i] as int),
    decreases a.len() - i,
{
    if i < a.len() {
        let ts = m.owner(a[i] as int);
        run_ends(m, a, ts, i);
        run_ends(m, a, ts, i + 1);
        let j = run_end(m, a, ts, i);
        let run = a.subrange(i, j);
        let once = flipped_run(m, run);
        let rest = flipped_from(m, a, j);
        let all = once + rest;
        assert(flipped_from(m, a, i) == all);
        flipping_a_run_twice(m, run);
        flipping_twice_from(m, a, j);
        flipping_keeps_length(m, a, j);
        assert forall|k: int| 0 <= k < once.len() implies m.owner(#[trigger] all[k] as int) == ts by {
            assert(all[k] == once[k]);
            assert(once.contains(once[k]));
            let l = choose|l: int| 0 <= l < run.len() && run[l] == once[k];
            assert(run[l] == a[i + l]);
        }
        let n = once.len() as int;
        assert(n == j - i);
        if n < all.len() {
            assert(all[n] == rest[0]);
        }
        assert(m.owner(all[0] as int) == ts);
        run_end_is(m, all, ts, 0, n);
        assert(all.subrange(0, n) =~= once);
        assert(all.skip(n) =~= rest.skip(0));
        flipped_tail(m, all, rest, n, 0);
        assert(flipped_from(m, all, 0) == flipped_run(m, once) + flipped_from(m, rest, 0));
        assert(run + a.skip(j) =~= a.skip(i));
    } else {
        assert(a.skip(i) =~= Seq::empty());
    }
}

/// Changing the place of the forward transitions twice gives the alignment back, where each run of
/// a transition state holds at most one of them, at one end.
pub proof fn flipping_twice_changes_nothing(m: ModelView, a: Seq<TransitionId>)
    requires
        flippable_from(m, a, 0),
    ensures
        flipped_from(m, flipped_from(m, a, 0), 0) == a,
{
    flipping_twice_from(m, a, 0);
    assert(a.skip(0) =~= a);
}

/// Move the forward transition of each transition state's run from one end to the other.
pub fn change_reordering(tm: &TransitionModel, alignment: &Vec<TransitionId>) -> (r: Vec<TransitionId>)
    requires
        tm.wf(),
        ids_fit(tm@, alignment@),
    ensures
        r@ == flipped_from(tm@, alignment@, 0),
        r@.len() == alignment@.len(),
{
    let ghost m = tm@;
    let ghost a = alignment@;
    let n: usize = alignment.len();
    let mut out: Vec<TransitionId> = Vec::new();
    let mut i: usize = 0;
    proof {
        flipping_keeps_length(m, a, 0);
        assert(Seq::<TransitionId>::empty() + flipped_from(m, a, 0) =~= flipped_from(m, a, 0));
    }
    while i < n
        invariant
            tm.wf(),
            m == tm@,
            a == alignment@,
            ids_fit(m, a),
            n == a.len(),
            i <= n,
            flipped_from(m, a, 0) == out@ + flipped_from(m, a, i as int),
        decreases n - i,
    {
        assert(m.has_id(a[i as int] as int));
        let ts: u32 = tm.transition_id_to_transition_state(alignment[i]);
        let mut j: usize = i;
        while j < n && tm.transition_id_to_transition_state(alignment[j]) == ts
            invariant
                tm.wf(),
                m == tm@,
                a == alignment@,
                ids_fit(m, a),
                n == a.len(),
                i <= j <= n,
                i < n,
                run_end(m, a, ts as int, i as int) == run_end(m, a, ts as int, j as int),
            decreases n - j,
        {
            j += 1;
        }
        proof {
            run_ends(m, a, ts as int, i as int);
            run_ends(m, a, ts as int, i + 1);
        }
        let ghost run = a.subrange(i as int, j as int);
        let mut pos: usize = i;
        assert(m.has_id(a[i as int] as int));
        while pos < j && tm.is_self_loop(alignment[pos])
            invariant
                tm.wf(),
                m == tm@,
                a == alignment@,
                ids_fit(m, a),
                n == a.len(),
                i <= pos <= j,
                j <= n,
                run == a.subrange(i as int, j as int),
                first_forward(m, run, 0) == first_forward(m, run, pos - i),
            decreases j - pos,
        {
            pos += 1;
        }
        let ghost before = out@;
        if pos < j && pos == i {
            let mut k: usize = i + 1;
            while k < j
                invariant
                    a == alignment@,
                    n == a.len(),
                    i < k <= j,
                    j <= n,
                    run == a.subrange(i as int, j as int),
                    out@ == before + run.subrange(1, k - i),
                decreases j - k,
            {
                out.push(alignment[k]);
                assert(run.subrange(1, k + 1 - i) =~= run.subrange(1, k - i).push(run[k - i]));
                k += 1;
            }
            out.push(alignment[i]);
            assert(out@ =~= before + run.skip(1).push(run[0]));
        } else {
            if pos < j && pos == j - 1 {
                out.push(alignment[pos]);
            }
            let ghost led = out@;
            let stop: usize = if pos < j && pos == j - 1 {
                pos
            } else {
                j
            };
            let mut k: usize = i;
            while k < stop
                invariant
                    a == alignment@,
                    n == a.len(),
                    i <= k <= stop,
                    stop <= j,
                    j <= n,
                    run == a.subrange(i as int, j as int),
                    out@ == led + run.take(k - i),
                decreases stop - k,
            {
                out.push(alignment[k]);
                assert(run.take(k + 1 - i) =~= run.take(k - i).push(run[k - i]));
                k += 1;
            }
            assert(out@ =~= before + flipped_run(m, run));
        }
        proof {
            assert(before + (flipped_run(m, run) + flipped_from(m, a, j as int)) =~= (before
                + flipped_run(m, run)) + flipped_from(m, a, j as int));
        }
        i = j;
    }
    assert(out@ =~= flipped_from(m, a, 0));
    out
}

/// The window around place `c` of a phone sequence, 0 beyond its ends.
pub open spec fn window_at(phones: Seq<PhoneId>, n: int, p: int, c: int) -> Seq<PhoneId> {
    Seq::new(
        n as nat,
        |o: int|
            if 0 <= c - p + o < phones.len() {
                phones[c - p + o]
            } else {
                0
            },
    )
}

/// The phone of each run.
pub open spec fn phones_of(m: ModelView, runs: Seq<Seq<TransitionId>>) -> Seq<PhoneId> {
    Seq::new(runs.len(), |k: int| m.tuple_of(runs[k][0] as int).phone)
}

/// The id in the model `new` of what `t` is in `old`, for a phone in the context `window`: the same
/// transition of the same HMM state, with the pdf that the new tree gives.
pub open spec fn converted_id(
    old: ModelView,
    new: ModelView,
    tree: Tree,
    window: Seq<PhoneId>,
    phone: PhoneId,
    t: TransitionId,
) -> Option<TransitionId> {
    let tuple = old.tuple_of(t as int);
    let class = hmm_state_of(old.topo, tuple).pdf_class;
    let pdf = answer(tree, window_event(window, class));
    let moved = Tuple {
        phone,
        hmm_state: tuple.hmm_state,
        forward_pdf: pdf->0,
        self_loop_pdf: pdf->0,
    };
    let index = index_of(old.topo, old.tuples, t as int);
    if 0 <= class < classes_of(new.topo, phone) && pdf is Some && new.tuples.contains(moved)
        && index < hmm_state_of(new.topo, moved).transitions.len() {
        Some((new.first_id(state_number(new, moved)) + index) as u32)
    } else {
        None
    }
}

/// The ids of `run` from `k` on in the new model.
pub open spec fn converted_ids(
    old: ModelView,
    new: ModelView,
    tree: Tree,
    window: Seq<PhoneId>,
    phone: PhoneId,
    run: Seq<TransitionId>,
    k: int,
) -> Option<Seq<TransitionId>>
    decreases run.len() - k,
{
    if k >= run.len() {
        Some(Seq::empty())
    } else {
        match converted_id(old, new, tree, window, phone, run[k]) {
            Some(t) => match converted_ids(old, new, tree, window, phone, run, k + 1) {
                Some(rest) => Some(seq![t] + rest),
                None => None,
            },
            None => None,
        }
    }
}

/// The new tree has a pdf for each pdf-class of the phone.
pub open spec fn all_answered(tree: Tree, window: Seq<PhoneId>, classes: int) -> bool {
    forall|c: int|
        0 <= c < classes ==> #[trigger] answer(tree, window_event(window, c as i32)) is Some
}

/// One phone of an alignment in the new model.
pub open spec fn converted_run(
    old: ModelView,
    new: ModelView,
    p: int,
    tree: Tree,
    run: Seq<TransitionId>,
    window: Seq<PhoneId>,
    old_is_reordered: bool,
) -> Option<Seq<TransitionId>> {
    let phone = window[p];
    let old_phone = old.tuple_of(run[0] as int).phone;
    if covers(old.topo, old_phone) && covers(new.topo, phone) && same_prototype(
        states_of(old.topo, old_phone),
        states_of(new.topo, phone),
    ) && all_answered(tree, window, classes_of(new.topo, phone)) {
        match converted_ids(old, new, tree, window, phone, run, 0) {
            Some(ids) => Some(
                if old_is_reordered {
                    ids
                } else {
                    flipped_from(new, ids, 0)
                },
            ),
            None => None,
        }
    } else {
        None
    }
}

/// The phones of an alignment from number `k` on in the new model.
pub open spec fn converted_runs(
    old: ModelView,
    new: ModelView,
    n: int,
    p: int,
    tree: Tree,
    runs: Seq<Seq<TransitionId>>,
    k: int,
    old_is_reordered: bool,
) -> Option<Seq<TransitionId>>
    decreases runs.len() - k,
{
    if k >= runs.len() {
        Some(Seq::empty())
    } else {
        match converted_run(
            old,
            new,
            p,
            tree,
            runs[k],
            window_at(phones_of(old, runs), n, p, k),
            old_is_reordered,
        ) {
            Some(ids) => match converted_runs(old, new, n, p, tree, runs, k + 1, old_is_reordered) {
                Some(rest) => Some(ids + rest),
                None => None,
            },
            None => None,
        }
    }
}

/// An alignment in the new model, in the reordered form. There is none if the alignment is not made
/// of whole phones, if a phone has another prototype in the new model, or if a transition has no
/// counterpart there.
pub open spec fn conversion(
    old: ModelView,
    new: ModelView,
    n: int,
    p: int,
    tree: Tree,
    a: Seq<TransitionId>,
) -> Option<Seq<TransitionId>> {
    if split_is_ok(old, a) {
        converted_runs(old, new, n, p, tree, runs_of(old, a), 0, reordered_from(old, a, 0))
    } else {
        None
    }
}

proof fn converted_ids_facts(
    old: ModelView,
    new: ModelView,
    tree: Tree,
    window: Seq<PhoneId>,
    phone: PhoneId,
    run: Seq<TransitionId>,
    k: int,
)
    requires
        0 <= k <= run.len(),
    ensures
        converted_ids(old, new, tree, window, phone, run, k) matches Some(ids) ==> ids.len()
            == run.len() - k,
    decreases run.len() - k,
{
    if k < run.len() {
        converted_ids_facts(old, new, tree, window, phone, run, k + 1);
    }
}

proof fn converted_runs_length(
    old: ModelView,
    new: ModelView,
    n: int,
    p: int,
    tree: Tree,
    runs: Seq<Seq<TransitionId>>,
    k: int,
    old_is_reordered: bool,
)
    requires
        0 <= k <= runs.len(),
    ensures
        converted_runs(old, new, n, p, tree, runs, k, old_is_reordered) matches Some(ids)
            ==> ids.len() == concatenated(runs.skip(k)).len(),
    decreases runs.len() - k,
{
    if k < runs.len() {
        converted_runs_length(old, new, n, p, tree, runs, k + 1, old_is_reordered);
        let window = window_at(phones_of(old, runs), n, p, k);
        converted_ids_facts(old, new, tree, window, window[p], runs[k], 0);
        if let Some(ids) = converted_ids(old, new, tree, window, window[p], runs[k], 0) {
            flipping_keeps_length(new, ids, 0);
        }
        concatenated_front(runs.skip(k));
        assert(runs.skip(k).drop_first() =~= runs.skip(k + 1));
    } else {
        assert(runs.skip(k) =~= Seq::empty());
    }
}

proof fn concatenated_front(runs: Seq<Seq<TransitionId>>)
    requires
        runs.len() > 0,
    ensures
        concatenated(runs) == runs[0] + concatenated(runs.drop_first()),
    decreases runs.len(),
{
    if runs.len() == 1 {
        assert(runs.drop_last() =~= Seq::empty());
        assert(runs.drop_first() =~= Seq::empty());
        assert(concatenated(runs.drop_last()) =~= Seq::empty());
        assert(concatenated(runs.drop_first()) =~= Seq::empty());
        assert(concatenated(runs) =~= runs[0]);
        assert(runs[0] + Seq::<TransitionId>::empty() =~= runs[0]);
    } else {
        concatenated_front(runs.drop_last());
        assert(runs.drop_last().drop_first() =~= runs.drop_first().drop_last());
        assert(runs.drop_first().last() == runs.last());
        assert((runs[0] + concatenated(runs.drop_first().drop_last())) + runs.last() =~= runs[0] + (
        concatenated(runs.drop_first().drop_last()) + runs.last()));
    }
}

/// An alignment that is carried to another model keeps its length.
pub proof fn conversion_keeps_length(
    old: ModelView,
    new: ModelView,
    n: int,
    p: int,
    tree: Tree,
    a: Seq<TransitionId>,
)
    ensures
        conversion(old, new, n, p, tree, a) matches Some(ids) ==> ids.len() == a.len(),
{
    let runs = runs_of(old, a);
    converted_runs_length(old, new, n, p, tree, runs, 0, reordered_from(old, a, 0));
    runs_join_to_the_alignment(old, a);
    assert(runs.skip(0) =~= runs);
}

/// The alignment is one over the tree: each phone's prototype is made of numbers, the tree has all
/// of its pdfs, and every id is of the phone and has the pdf that the tree gives in its context.
pub open spec fn is_over_tree(m: ModelView, n: int, p: int, tree: Tree, a: Seq<TransitionId>) -> bool {
    let runs = runs_of(m, a);
    forall|k: int|
        0 <= k < runs.len() ==> #[trigger] run_is_over_tree(
            m,
            tree,
            runs[k],
            window_at(phones_of(m, runs), n, p, k),
        )
}

/// One phone of such an alignment.
pub open spec fn run_is_over_tree(
    m: ModelView,
    tree: Tree,
    run: Seq<TransitionId>,
    window: Seq<PhoneId>,
) -> bool {
    let phone = m.tuple_of(run[0] as int).phone;
    let states = states_of(m.topo, phone);
    &&& covers(m.topo, phone)
    &&& same_prototype(states, states)
    &&& all_answered(tree, window, classes_of(m.topo, phone))
    &&& forall|i: int|
        0 <= i < run.len() ==> {
            let tuple = m.tuple_of(#[trigger] run[i] as int);
            let class = hmm_state_of(m.topo, tuple).pdf_class;
            &&& tuple.phone == phone
            &&& 0 <= class < classes_of(m.topo, phone)
            &&& tuple.forward_pdf == tuple.self_loop_pdf
            &&& answer(tree, window_event(window, class)) == Some(tuple.forward_pdf)
        }
}

proof fn same_ids(
    m: ModelView,
    tree: Tree,
    window: Seq<PhoneId>,
    run: Seq<TransitionId>,
    k: int,
)
    requires
        increasing(m.tuples),
        id_count(m.topo, m.tuples) < u32::MAX,
        ids_fit(m, run),
        run.len() > 0,
        run_is_over_tree(m, tree, run, window),
        0 <= k <= run.len(),
    ensures
        converted_ids(m, m, tree, window, m.tuple_of(run[0] as int).phone, run, k) == Some(
            run.skip(k),
        ),
    decreases run.len() - k,
{
    let phone = m.tuple_of(run[0] as int).phone;
    if k < run.len() {
        same_ids(m, tree, window, run, k + 1);
        let t = run[k];
        let tuple = m.tuple_of(t as int);
        assert(m.has_id(t as int));
        ids_and_pairs_agree(m, t as int);
        tuple_place(m, m.owner(t as int));
        assert(m.tuples.contains(tuple));
        assert(converted_id(m, m, tree, window, phone, t) == Some(t));
        assert(seq![t] + run.skip(k + 1) =~= run.skip(k));
    } else {
        assert(run.skip(k) =~= Seq::empty());
    }
}

proof fn same_runs(
    m: ModelView,
    n: int,
    p: int,
    tree: Tree,
    a: Seq<TransitionId>,
    k: int,
)
    requires
        increasing(m.tuples),
        id_count(m.topo, m.tuples) < u32::MAX,
        ids_fit(m, a),
        0 <= p < n,
        is_over_tree(m, n, p, tree, a),
        0 <= k <= runs_of(m, a).len(),
    ensures
        converted_runs(m, m, n, p, tree, runs_of(m, a), k, true) == Some(
            concatenated(runs_of(m, a).skip(k)),
        ),
    decreases runs_of(m, a).len() - k,
{
    let runs = runs_of(m, a);
    if k < runs.len() {
        same_runs(m, n, p, tree, a, k + 1);
        let run = runs[k];
        let window = window_at(phones_of(m, runs), n, p, k);
        runs_are_not_empty(m, a, k);
        assert(run_is_over_tree(m, tree, run, window));
        assert(window[p] == m.tuple_of(run[0] as int).phone);
        assert forall|i: int| 0 <= i < run.len() implies m.has_id(#[trigger] run[i] as int) by {
            assert(run[i] == a[start_of(ends_of(m, a), k) + i]);
        }
        same_ids(m, tree, window, run, 0);
        assert(run.skip(0) =~= run);
        concatenated_front(runs.skip(k));
        assert(runs.skip(k).drop_first() =~= runs.skip(k + 1));
    } else {
        assert(runs.skip(k) =~= Seq::empty());
    }
}

/// An alignment that is carried to the model that it belongs to stays as it is.
pub proof fn conversion_to_the_same_model_changes_nothing(
    m: ModelView,
    n: int,
    p: int,
    tree: Tree,
    a: Seq<TransitionId>,
)
    requires
        increasing(m.tuples),
        id_count(m.topo, m.tuples) < u32::MAX,
        ids_fit(m, a),
        0 <= p < n,
        split_is_ok(m, a),
        reordered_from(m, a, 0),
        is_over_tree(m, n, p, tree, a),
    ensures
        conversion(m, m, n, p, tree, a) == Some(a),
{
    same_runs(m, n, p, tree, a, 0);
    runs_join_to_the_alignment(m, a);
    assert(runs_of(m, a).skip(0) =~= runs_of(m, a));
}

/// The pdf of each pdf-class, if the tree has one for all.
fn pdfs_for(ctx: &ContextDependency, window: &Vec<PhoneId>, classes: usize) -> (r: Option<Vec<PdfId>>)
    requires
        window@.len() == ctx.n,
        classes <= i32::MAX + 1,
    ensures
        r is Some == all_answered(ctx.map.tree(), window@, classes as int),
        r matches Some(pdfs) ==> pdfs@.len() == classes && forall|c: int|
            0 <= c < classes ==> Some(#[trigger] pdfs@[c]) == answer(
                ctx.map.tree(),
                window_event(window@, c as i32),
            ),
{
    let mut pdfs: Vec<PdfId> = Vec::new();
    let mut class: usize = 0;
    while class < classes
        invariant
            window@.len() == ctx.n,
            classes <= i32::MAX + 1,
            class <= classes,
            pdfs@.len() == class,
            forall|c: int|
                0 <= c < class ==> Some(#[trigger] pdfs@[c]) == answer(
                    ctx.map.tree(),
                    window_event(window@, c as i32),
                ),
        decreases classes - class,
    {
        match ctx.compute(window.as_slice(), class as i32) {
            Some(pdf) => {
                pdfs.push(pdf);
            },
            None => {
                assert(answer(ctx.map.tree(), window_event(window@, class as int as i32)) is None);
                return None;
            },
        }
        class += 1;
    }
    assert forall|c: int| 0 <= c < classes implies #[trigger] answer(
        ctx.map.tree(),
        window_event(window@, c as i32),
    ) is Some by {
        assert(Some(pdfs@[c]) == answer(ctx.map.tree(), window_event(window@, c as i32)));
    }
    Some(pdfs)
}

fn convert_id(
    old: &TransitionModel,
    new: &TransitionModel,
    pdfs: &Vec<PdfId>,
    phone: PhoneId,
    t: TransitionId,
    Ghost(tree): Ghost<Tree>,
    Ghost(window): Ghost<Seq<PhoneId>>,
) -> (r: Option<TransitionId>)
    requires
        old.wf(),
        new.wf(),
        old@.has_id(t as int),
        pdfs@.len() == classes_of(new@.topo, phone),
        forall|c: int|
            0 <= c < pdfs@.len() ==> Some(#[trigger] pdfs@[c]) == answer(
                tree,
                window_event(window, c as i32),
            ),
    ensures
        r == converted_id(old@, new@, tree, window, phone, t),
        r matches Some(x) ==> new@.has_id(x as int),
{
    let old_tstate: u32 = old.transition_id_to_transition_state(t);
    let class: i32 = old.transition_state_to_forward_pdf_class(old_tstate);
    let hmm_state: usize = old.transition_id_to_hmm_state(t);
    let index: usize = old.transition_id_to_transition_index(t);
    if class < 0 || class as usize >= pdfs.len() {
        return None;
    }
    let pdf: PdfId = pdfs[class as usize];
    assert(Some(pdfs@[class as int]) == answer(tree, window_event(window, class as int as i32)));
    let new_tstate: u32 = match new.try_tuple_to_transition_state(phone, hmm_state, pdf, pdf) {
        Some(s) => s,
        None => {
            return None;
        },
    };
    if index >= new.num_transition_indices(new_tstate) {
        return None;
    }
    proof {
        new.facts();
        tuple_place(new@, new_tstate as int);
        pairs_and_ids_agree(new@, new_tstate as int, index as int);
        pairs_and_ids_agree(new@, new_tstate as int, 0);
    }
    Some(new.pair_to_transition_id(new_tstate, index as u32))
}

/// One phone of an alignment in the new model.
#[verifier::loop_isolation(false)]
fn convert_alignment_for_phone(
    old: &TransitionModel,
    new: &TransitionModel,
    new_ctx: &ContextDependency,
    run: &Vec<TransitionId>,
    window: &Vec<PhoneId>,
    old_is_reordered: bool,
) -> (r: Option<Vec<TransitionId>>)
    requires
        old.wf(),
        new.wf(),
        new_ctx.p < new_ctx.n,
        window@.len() == new_ctx.n,
        run@.len() > 0,
        ids_fit(old@, run@),
    ensures
        match converted_run(
            old@,
            new@,
            new_ctx.p as int,
            new_ctx.map.tree(),
            run@,
            window@,
            old_is_reordered,
        ) {
            Some(ids) => r matches Some(x) && x@ == ids,
            None => r is None,
        },
{
    let ghost tree = new_ctx.map.tree();
    let phone: PhoneId = window[new_ctx.p];
    assert(old@.has_id(run@[0] as int));
    let old_phone: PhoneId = old.transition_id_to_phone(run[0]);
    let old_entry = match old.topology().try_for_phone(old_phone) {
        Some(states) => states,
        None => {
            return None;
        },
    };
    let new_entry = match new.topology().try_for_phone(phone) {
        Some(states) => states,
        None => {
            return None;
        },
    };
    if !prototypes_agree(old_entry, new_entry) {
        return None;
    }
    let classes: usize = new.topology().num_pdf_classes(phone);
    let pdfs = match pdfs_for(new_ctx, window, classes) {
        Some(pdfs) => pdfs,
        None => {
            return None;
        },
    };
    let ghost want = converted_ids(old@, new@, tree, window@, phone, run@, 0);
    let mut out: Vec<TransitionId> = Vec::new();
    let mut k: usize = 0;
    proof {
        if let Some(ids) = want {
            assert(Seq::<TransitionId>::empty() + ids =~= ids);
        }
    }
    while k < run.len()
        invariant
            old.wf(),
            new.wf(),
            ids_fit(old@, run@),
            pdfs@.len() == classes_of(new@.topo, phone),
            forall|c: int|
                0 <= c < pdfs@.len() ==> Some(#[trigger] pdfs@[c]) == answer(
                    tree,
                    window_event(window@, c as i32),
                ),
            k <= run@.len(),
            ids_fit(new@, out@),
            want == (match converted_ids(old@, new@, tree, window@, phone, run@, k as int) {
                Some(rest) => Some(out@ + rest),
                None => None,
            }),
        decreases run.len() - k,
    {
        assert(old@.has_id(run@[k as int] as int));
        match convert_id(old, new, &pdfs, phone, run[k], Ghost(tree), Ghost(window@)) {
            Some(t) => {
                proof {
                    if let Some(rest) = converted_ids(
                        old@,
                        new@,
                        tree,
                        window@,
                        phone,
                        run@,
                        k + 1,
                    ) {
                        assert(out@ + (seq![t] + rest) =~= out@.push(t) + rest);
                    }
                }
                out.push(t);
            },
            None => {
                assert(want is None);
                return None;
            },
        }
        k += 1;
    }
    assert(out@ + Seq::<TransitionId>::empty() =~= out@);
    if old_is_reordered {
        Some(out)
    } else {
        Some(change_reordering(new, &out))
    }
}

fn window_around(phones: &Vec<PhoneId>, ctx: &ContextDependency, c: usize) -> (r: Vec<PhoneId>)
    requires
        c < phones@.len(),
    ensures
        r@ == window_at(phones@, ctx.n as int, ctx.p as int, c as int),
{
    let ghost want = window_at(phones@, ctx.n as int, ctx.p as int, c as int);
    let count: usize = phones.len();
    let mut window: Vec<PhoneId> = Vec::new();
    let mut o: usize = 0;
    while o < ctx.n
        invariant
            c < phones@.len(),
            count == phones@.len(),
            want == window_at(phones@, ctx.n as int, ctx.p as int, c as int),
            o <= ctx.n,
            window@ == want.take(o as int),
        decreases ctx.n - o,
    {
        let phone: PhoneId = if o >= ctx.p {
            let ahead: usize = o - ctx.p;
            if ahead < count - c {
                phones[c + ahead]
            } else {
                0
            }
        } else {
            let behind: usize = ctx.p - o;
            if behind <= c {
                phones[c - behind]
            } else {
                0
            }
        };
        window.push(phone);
        assert(window@ =~= want.take(o + 1));
        o += 1;
    }
    assert(window@ =~= want);
    window
}

/// Carry an alignment to another model with the same prototypes, phone by phone, in the reordered
/// form. There is no answer if the alignment is not made of whole phones, if a phone has another
/// prototype in the new model, or if a transition has no counterpart there. The window comes from
/// the new tree; `phone_window_context` is not used.
#[verifier::loop_isolation(false)]
pub fn convert_alignment(
    old: &TransitionModel,
    new: &TransitionModel,
    new_ctx: &ContextDependency,
    phone_window_context: usize,
    tids: &[TransitionId],
) -> (r: Option<Vec<TransitionId>>)
    requires
        old.wf(),
        new.wf(),
        new_ctx.p < new_ctx.n,
        ids_fit(old@, tids@),
    ensures
        match conversion(
            old@,
            new@,
            new_ctx.n as int,
            new_ctx.p as int,
            new_ctx.map.tree(),
            tids@,
        ) {
            Some(ids) => r matches Some(x) && x@ == ids && ids.len() == tids@.len(),
            None => r is None,
        },
{
    let ghost m = old@;
    let ghost a = tids@;
    let ghost n = new_ctx.n as int;
    let ghost p = new_ctx.p as int;
    let ghost tree = new_ctx.map.tree();
    let old_is_reordered: bool = is_reordered(old, tids);
    let (runs, ok) = split_to_phones_checked(old, tids);
    if !ok {
        return None;
    }
    let ghost views = runs_of(m, a);
    let count: usize = runs.len();
    let mut phones: Vec<PhoneId> = Vec::new();
    let mut k: usize = 0;
    while k < count
        invariant
            old.wf(),
            m == old@,
            a == tids@,
            ids_fit(m, a),
            views == runs_of(m, a),
            views == run_views(runs@),
            count == runs@.len(),
            k <= count,
            phones@ == phones_of(m, views).take(k as int),
        decreases count - k,
    {
        proof {
            runs_are_not_empty(m, a, k as int);
            assert(views[k as int] == runs@[k as int]@);
            assert(views[k as int][0] == a[start_of(ends_of(m, a), k as int)]);
            assert(m.has_id(a[start_of(ends_of(m, a), k as int)] as int));
        }
        phones.push(old.transition_id_to_phone(runs[k][0]));
        assert(phones@ =~= phones_of(m, views).take(k + 1));
        k += 1;
    }
    assert(phones@ =~= phones_of(m, views));
    let ghost want = converted_runs(m, new@, n, p, tree, views, 0, old_is_reordered);
    let mut out: Vec<TransitionId> = Vec::new();
    k = 0;
    proof {
        if let Some(ids) = want {
            assert(Seq::<TransitionId>::empty() + ids =~= ids);
        }
        conversion_keeps_length(m, new@, n, p, tree, a);
    }
    while k < count
        invariant
            old.wf(),
            new.wf(),
            new_ctx.p < new_ctx.n,
            n == new_ctx.n,
            p == new_ctx.p,
            tree == new_ctx.map.tree(),
            m == old@,
            a == tids@,
            ids_fit(m, a),
            views == runs_of(m, a),
            views == run_views(runs@),
            count == runs@.len(),
            phones@ == phones_of(m, views),
            k <= count,
            want == (match converted_runs(
                m,
                new@,
                n,
                p,
                tree,
                views,
                k as int,
                old_is_reordered,
            ) {
                Some(rest) => Some(out@ + rest),
                None => None,
            }),
        decreases count - k,
    {
        let window = window_around(&phones, new_ctx, k);
        proof {
            runs_are_not_empty(m, a, k as int);
            assert(views[k as int] == runs@[k as int]@);
            let run = views[k as int];
            assert forall|i: int| 0 <= i < run.len() implies m.has_id(#[trigger] run[i] as int) by {
                assert(run[i] == a[start_of(ends_of(m, a), k as int) + i]);
            }
        }
        match convert_alignment_for_phone(
            old,
            new,
            new_ctx,
            &runs[k],
            &window,
            old_is_reordered,
        ) {
            Some(mut ids) => {
                let ghost before = out@;
                let ghost added = ids@;
                out.append(&mut ids);
                proof {
                    if let Some(rest) = converted_runs(
                        m,
                        new@,
                        n,
                        p,
                        tree,
                        views,
                        k + 1,
                        old_is_reordered,
                    ) {
                        assert(before + (added + rest) =~= out@ + rest);
                    }
                }
            },
            None => {
                assert(want is None);
                return None;
            },
        }
        k += 1;
    }
    assert(out@ + Seq::<TransitionId>::empty() =~= out@);
    Some(out)
}

/// How many frames the first `k` runs cover.
pub open spec fn frames_before(runs: Seq<Seq<TransitionId>>, k: int) -> int {
    concatenated(runs.take(k)).len() as int
}

/// The interval of each run.
pub open spec fn phone_intervals(m: ModelView, runs: Seq<Seq<TransitionId>>) -> Seq<PhoneInterval> {
    Seq::new(
        runs.len(),
        |k: int|
            PhoneInterval {
                phone: m.tuple_of(runs[k][0] as int).phone,
                start_frame: frames_before(runs, k) as u32,
                end_frame: frames_before(runs, k + 1) as u32,
            },
    )
}

/// The phones of word `w` of the utterance: those of the given pronunciation, or of its first one
/// if it has no such; nothing if it has none at all.
pub open spec fn expected_phones(words_prons: Seq<Seq<PronView>>, w: WordId, pron: u32) -> Option<
    Seq<PhoneId>,
> {
    if w >= words_prons.len() {
        None
    } else if pron < words_prons[w as int].len() {
        Some(words_prons[w as int][pron as int].phones)
    } else if words_prons[w as int].len() > 0 {
        Some(words_prons[w as int][0].phones)
    } else {
        None
    }
}

/// The pronunciation recorded for word `k` of the path, the first where none is.
pub open spec fn recorded_pron(prons: Seq<u32>, k: int) -> u32 {
    if k < prons.len() && prons[k] != NO_PRON {
        prons[k]
    } else {
        0
    }
}

/// The first of the phones from `i` on that is `first`, or the end.
pub open spec fn seek(phones: Seq<PhoneInterval>, first: PhoneId, i: int) -> int
    decreases phones.len() - i,
{
    if i < phones.len() && phones[i].phone != first {
        seek(phones, first, i + 1)
    } else {
        i
    }
}

/// The words of the path from number `k` on, laid over the phones from number `i` on. A word takes
/// as many phones as its pronunciation has, from the first one that starts it; what is skipped is
/// silence. There is no answer where a word without phones comes before the first phone.
pub open spec fn words_over(
    phones: Seq<PhoneInterval>,
    words_prons: Seq<Seq<PronView>>,
    words: Seq<WordId>,
    prons: Seq<u32>,
    k: int,
    i: int,
) -> Option<Seq<WordInterval>>
    decreases words.len() - k,
{
    if k >= words.len() {
        Some(Seq::empty())
    } else {
        let pron = recorded_pron(prons, k);
        match expected_phones(words_prons, words[k], pron) {
            None => words_over(phones, words_prons, words, prons, k + 1, i),
            Some(expected) => {
                let at = if expected.len() > 0 {
                    seek(phones, expected[0], i)
                } else {
                    i
                };
                let take = if expected.len() < phones.len() - at {
                    expected.len() as int
                } else {
                    phones.len() - at
                };
                if at >= phones.len() {
                    Some(Seq::empty())
                } else if at + take == 0 {
                    None
                } else {
                    match words_over(phones, words_prons, words, prons, k + 1, at + take) {
                        Some(rest) => Some(
                            seq![
                                WordInterval {
                                    word: words[k],
                                    pron,
                                    start_frame: phones[at].start_frame,
                                    end_frame: phones[at + take - 1].end_frame,
                                },
                            ] + rest,
                        ),
                        None => None,
                    }
                }
            },
        }
    }
}

/// The word intervals of an alignment.
pub open spec fn word_intervals(
    m: ModelView,
    ali: Alignment,
    words_prons: Seq<Vec<Pronunciation>>,
) -> Option<Seq<WordInterval>> {
    words_over(
        phone_intervals(m, runs_of(m, ali.tids@)),
        word_views(words_prons),
        ali.words@,
        ali.prons@,
        0,
        0,
    )
}

proof fn frames_grow(runs: Seq<Seq<TransitionId>>, k: int)
    requires
        0 <= k < runs.len(),
    ensures
        frames_before(runs, k + 1) == frames_before(runs, k) + runs[k].len(),
        frames_before(runs, k + 1) <= concatenated(runs).len(),
    decreases runs.len() - k,
{
    assert(runs.take(k + 1).drop_last() =~= runs.take(k));
    if k + 1 < runs.len() {
        frames_grow(runs, k + 1);
    } else {
        assert(runs.take(k + 1) =~= runs);
    }
}

/// The phone intervals follow each other without gaps, from the first frame to the last.
pub proof fn phone_intervals_cover_the_alignment(m: ModelView, a: Seq<TransitionId>, k: int)
    requires
        a.len() <= u32::MAX,
        0 <= k < runs_of(m, a).len(),
    ensures
        phone_intervals(m, runs_of(m, a))[k].start_frame == (if k == 0 {
            0
        } else {
            phone_intervals(m, runs_of(m, a))[k - 1].end_frame as int
        }),
        phone_intervals(m, runs_of(m, a))[k].start_frame < phone_intervals(
            m,
            runs_of(m, a),
        )[k].end_frame,
        k == runs_of(m, a).len() - 1 ==> phone_intervals(m, runs_of(m, a))[k].end_frame == a.len(),
{
    let runs = runs_of(m, a);
    runs_join_to_the_alignment(m, a);
    runs_are_not_empty(m, a, k);
    frames_grow(runs, k);
    assert(runs.take(0) =~= Seq::empty());
    if k == runs.len() - 1 {
        assert(runs.take(k + 1) =~= runs);
    }
}

/// Copy a text.
fn copy_text(s: &String) -> (r: String)
    ensures
        r@ == s@,
{
    string_of(&chars_of(s.as_str()))
}

/// The interval of each phone of an alignment.
fn list_phones(tm: &TransitionModel, tids: &Vec<TransitionId>) -> (r: Vec<PhoneInterval>)
    requires
        tm.wf(),
        ids_fit(tm@, tids@),
        tids@.len() <= u32::MAX,
    ensures
        r@ == phone_intervals(tm@, runs_of(tm@, tids@)),
{
    let ghost m = tm@;
    let ghost a = tids@;
    let runs = split_to_phones(tm, tids.as_slice());
    let ghost cut = runs_of(m, a);
    let ghost want = phone_intervals(m, cut);
    let count: usize = runs.len();
    let mut phones: Vec<PhoneInterval> = Vec::new();
    let mut frame: u32 = 0;
    let mut k: usize = 0;
    proof {
        runs_join_to_the_alignment(m, a);
        assert(cut.take(0) =~= Seq::empty());
    }
    while k < count
        invariant
            tm.wf(),
            m == tm@,
            a == tids@,
            ids_fit(m, a),
            a.len() <= u32::MAX,
            cut == runs_of(m, a),
            concatenated(cut) == a,
            want == phone_intervals(m, cut),
            cut == run_views(runs@),
            count == runs@.len(),
            k <= count,
            frame == frames_before(cut, k as int),
            phones@ == want.take(k as int),
        decreases count - k,
    {
        proof {
            runs_are_not_empty(m, a, k as int);
            frames_grow(cut, k as int);
            assert(cut[k as int] == runs@[k as int]@);
            assert(cut[k as int][0] == a[start_of(ends_of(m, a), k as int)]);
            assert(m.has_id(a[start_of(ends_of(m, a), k as int)] as int));
        }
        let phone: PhoneId = tm.transition_id_to_phone(runs[k][0]);
        let start: u32 = frame;
        frame = frame + runs[k].len() as u32;
        phones.push(PhoneInterval { phone, start_frame: start, end_frame: frame });
        assert(phones@ =~= want.take(k + 1));
        k += 1;
    }
    assert(phones@ =~= want);
    phones
}

/// The phones that a word of the path stands for.
fn chosen_phones<'a>(words_prons: &'a [Vec<Pronunciation>], w: WordId, pron: u32) -> (r: Option<
    &'a Vec<PhoneId>,
>)
    ensures
        match expected_phones(word_views(words_prons@), w, pron) {
            Some(phones) => r matches Some(x) && x@ == phones,
            None => r is None,
        },
{
    if w as usize >= words_prons.len() {
        return None;
    }
    let alts = &words_prons[w as usize];
    assert(word_views(words_prons@)[w as int] == pron_views(alts@));
    if (pron as usize) < alts.len() {
        Some(&alts[pron as usize].phones)
    } else if alts.len() > 0 {
        Some(&alts[0].phones)
    } else {
        None
    }
}

/// The words of a path laid over its phones.
#[verifier::loop_isolation(false)]
fn lay_words(
    phones: &Vec<PhoneInterval>,
    words_prons: &[Vec<Pronunciation>],
    path_words: &Vec<WordId>,
    path_prons: &Vec<u32>,
) -> (r: Option<Vec<WordInterval>>)
    ensures
        match words_over(phones@, word_views(words_prons@), path_words@, path_prons@, 0, 0) {
            Some(words) => r matches Some(x) && x@ == words,
            None => r is None,
        },
{
    let ghost views = word_views(words_prons@);
    let ghost want = words_over(phones@, views, path_words@, path_prons@, 0, 0);
    let mut words: Vec<WordInterval> = Vec::new();
    let mut i: usize = 0;
    let mut wk: usize = 0;
    proof {
        if let Some(all) = want {
            assert(Seq::<WordInterval>::empty() + all =~= all);
        }
    }
    while wk < path_words.len()
        invariant
            wk <= path_words@.len(),
            i <= phones@.len(),
            want == (match words_over(
                phones@,
                views,
                path_words@,
                path_prons@,
                wk as int,
                i as int,
            ) {
                Some(rest) => Some(words@ + rest),
                None => None,
            }),
        decreases path_words.len() - wk,
    {
        let w: WordId = path_words[wk];
        let pron: u32 = if wk < path_prons.len() && path_prons[wk] != NO_PRON {
            path_prons[wk]
        } else {
            0
        };
        match chosen_phones(words_prons, w, pron) {
            Some(expected) => {
                let size: usize = expected.len();
                let mut at: usize = i;
                if size > 0 {
                    let first: PhoneId = expected[0];
                    while at < phones.len() && phones[at].phone != first
                        invariant
                            i <= at <= phones@.len(),
                            seek(phones@, first, i as int) == seek(phones@, first, at as int),
                        decreases phones.len() - at,
                    {
                        at += 1;
                    }
                }
                let left: usize = phones.len() - at;
                if left == 0 {
                    assert(words@ + Seq::<WordInterval>::empty() =~= words@);
                    return Some(words);
                }
                let take: usize = if size < left {
                    size
                } else {
                    left
                };
                if at + take == 0 {
                    return None;
                }
                let interval = WordInterval {
                    word: w,
                    pron,
                    start_frame: phones[at].start_frame,
                    end_frame: phones[at + take - 1].end_frame,
                };
                proof {
                    if let Some(rest) = words_over(
                        phones@,
                        views,
                        path_words@,
                        path_prons@,
                        wk + 1,
                        at + take,
                    ) {
                        assert(words@ + (seq![interval] + rest) =~= words@.push(interval) + rest);
                    }
                }
                words.push(interval);
                i = at + take;
            },
            None => {},
        }
        wk += 1;
    }
    assert(words@ + Seq::<WordInterval>::empty() =~= words@);
    Some(words)
}

/// Turn an alignment into phone and word intervals, or give no answer where a word without phones
/// comes before the first phone.
pub fn try_to_intervals(
    tm: &TransitionModel,
    ali: &Alignment,
    words_prons: &[Vec<Pronunciation>],
    frame_shift_s: u32,
) -> (r: Option<IntervalAlignment>)
    requires
        tm.wf(),
        ids_fit(tm@, ali.tids@),
        ali.tids@.len() <= u32::MAX,
    ensures
        match word_intervals(tm@, *ali, words_prons@) {
            Some(words) => r matches Some(x) && x.utt@ == ali.utt@ && x.frame_shift_s
                == frame_shift_s && x.phones@ == phone_intervals(tm@, runs_of(tm@, ali.tids@))
                && x.words@ == words,
            None => r is None,
        },
{
    let phones = list_phones(tm, &ali.tids);
    match lay_words(&phones, words_prons, &ali.words, &ali.prons) {
        Some(words) => Some(
            IntervalAlignment { utt: copy_text(&ali.utt), frame_shift_s, phones, words },
        ),
        None => None,
    }
}

/// Turn an alignment into phone and word intervals.
pub fn to_intervals(
    tm: &TransitionModel,
    ali: &Alignment,
    words_prons: &[Vec<Pronunciation>],
    frame_shift_s: u32,
) -> (r: IntervalAlignment)
    requires
        tm.wf(),
        ids_fit(tm@, ali.tids@),
        ali.tids@.len() <= u32::MAX,
        word_intervals(tm@, *ali, words_prons@) is Some,
    ensures
        r.utt@ == ali.utt@,
        r.frame_shift_s == frame_shift_s,
        r.phones@ == phone_intervals(tm@, runs_of(tm@, ali.tids@)),
        Some(r.words@) == word_intervals(tm@, *ali, words_prons@),
{
    try_to_intervals(tm, ali, words_prons, frame_shift_s).unwrap()
}

} // verus!
