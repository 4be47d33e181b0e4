//! What a training run is told to do: stages, their schedule, and what is reported of the corpus.

use vstd::prelude::*;
use vstd::string::StringExecFns;

use crate::audio::Audio;
use crate::float::{eval_wide, is_evaluator, wide_value, FloatOp};
use crate::hmm::construct::GraphOptions;
use crate::io::names::{
    before, counts, is_before, order_is_total, order_is_transitive, Counted,
};
use crate::text::{chars_of, same_text};
use crate::types::{texts, Utterance};

verus! {

/// How the corpus of a run is read.
#[derive(Debug)]
pub struct CorpusArgs {
    pub dict: Option<String>,
    pub no_position_dependent: bool,
}

/// What a training run is asked for.
#[derive(Debug)]
pub struct TrainArgs {
    /// The directory of the corpus.
    pub corpus: String,
    /// Where the model is written.
    pub out: String,
    /// Where TextGrids of the last alignments are written, if anywhere.
    pub out_textgrids: Option<String>,
    /// Where the models between the stages are written, if anywhere.
    pub work_dir: Option<String>,
    pub corpus_args: CorpusArgs,
    pub no_lda: bool,
    pub no_sat: bool,
    /// Without triphones there is neither LDA nor SAT.
    pub no_tri: bool,
    /// How many rounds of SAT, if not all of the schedule.
    pub sat_rounds: Option<usize>,
    pub no_pron_probs: bool,
    pub no_subset: bool,
    pub seed: u64,
    pub cpu: bool,
    /// A file that the progress is copied to, if any.
    pub log: Option<String>,
}

/// Which stages are run.
#[derive(Clone, Copy, Debug, PartialEq, Eq, Structural)]
pub struct Stages {
    pub tri: bool,
    pub lda: bool,
    pub sat: bool,
    pub pron_probs: bool,
}

/// A stage of the schedule.
#[derive(Clone, Copy, Debug, PartialEq, Eq, Structural)]
pub enum StageSpec {
    Mono,
    Tri,
    Lda,
    Sat,
    PronProbs,
}

/// How a training run goes.
#[derive(Debug)]
pub struct TrainConfig {
    pub seed: u64,
    /// Whether the early stages see only a part of the corpus.
    pub subset: bool,
    pub position_dependent: bool,
    pub stages: Stages,
    pub schedule: Vec<StageSpec>,
    /// How decoding graphs are built.
    pub graph: GraphOptions,
}

/// The stages that are left of `base`.
pub open spec fn stages_left(args: TrainArgs, base: Stages) -> Stages {
    Stages {
        tri: base.tri && !args.no_tri,
        lda: base.lda && !args.no_tri && !args.no_lda,
        sat: base.sat && !args.no_tri && !args.no_sat,
        pron_probs: base.pron_probs && !args.no_pron_probs,
    }
}

/// How many rounds of SAT the first `n` entries have.
pub open spec fn sat_count(schedule: Seq<StageSpec>, n: int) -> int
    decreases n,
{
    if n <= 0 {
        0
    } else {
        sat_count(schedule, n - 1) + (if schedule[n - 1] == StageSpec::Sat {
            1int
        } else {
            0
        })
    }
}

/// Entry `i` of a schedule is kept: the first `rounds` rounds of SAT are, pronunciation
/// probabilities only if such a round is still to come, and all other stages.
pub open spec fn is_kept_stage(schedule: Seq<StageSpec>, i: int, rounds: int) -> bool {
    match schedule[i] {
        StageSpec::Sat => sat_count(schedule, i) < rounds,
        StageSpec::PronProbs => sat_count(schedule, i) < rounds,
        _ => true,
    }
}

/// What is kept of the first `n` entries.
pub open spec fn kept_stages(schedule: Seq<StageSpec>, n: int, rounds: int) -> Seq<StageSpec>
    decreases n,
{
    if n <= 0 {
        seq![]
    } else if is_kept_stage(schedule, n - 1, rounds) {
        kept_stages(schedule, n - 1, rounds).push(schedule[n - 1])
    } else {
        kept_stages(schedule, n - 1, rounds)
    }
}

/// Keep a number of rounds of SAT.
pub fn keep_rounds(schedule: &Vec<StageSpec>, rounds: usize) -> (r: Vec<StageSpec>)
    ensures
        r@ == kept_stages(schedule@, schedule@.len() as int, rounds as int),
{
    let mut out: Vec<StageSpec> = Vec::new();
    let mut seen: usize = 0;
    let mut i: usize = 0;
    while i < schedule.len()
        invariant
            i <= schedule@.len(),
            seen <= i,
            seen == sat_count(schedule@, i as int),
            out@ == kept_stages(schedule@, i as int, rounds as int),
        decreases schedule.len() - i,
    {
        let s = schedule[i];
        match s {
            StageSpec::Sat => {
                if seen < rounds {
                    out.push(s);
                }
                seen += 1;
            },
            StageSpec::PronProbs => {
                if seen < rounds {
                    out.push(s);
                }
            },
            _ => {
                out.push(s);
            },
        }
        i += 1;
    }
    out
}

proof fn sat_count_of_push(v: Seq<StageSpec>, s: StageSpec, n: int)
    requires
        0 <= n <= v.len(),
    ensures
        sat_count(v.push(s), n) == sat_count(v, n),
    decreases n,
{
    if n > 0 {
        sat_count_of_push(v, s, n - 1);
    }
}

/// As many rounds of SAT are kept as asked for, or all that there are.
pub proof fn rounds_are_kept(schedule: Seq<StageSpec>, n: int, rounds: int)
    requires
        0 <= n <= schedule.len(),
        0 <= rounds,
    ensures
        ({
            let kept = kept_stages(schedule, n, rounds);
            let all = sat_count(schedule, n);
            sat_count(kept, kept.len() as int) == if all < rounds {
                all
            } else {
                rounds
            }
        }),
        0 <= sat_count(schedule, n),
    decreases n,
{
    if n > 0 {
        rounds_are_kept(schedule, n - 1, rounds);
        let before = kept_stages(schedule, n - 1, rounds);
        let s = schedule[n - 1];
        sat_count_of_push(before, s, before.len() as int);
    }
}

/// With enough rounds the schedule stays as it is.
pub proof fn enough_rounds_keep_all(schedule: Seq<StageSpec>, n: int, rounds: int)
    requires
        0 <= n <= schedule.len(),
        sat_count(schedule, n) < rounds,
    ensures
        kept_stages(schedule, n, rounds) == schedule.take(n),
    decreases n,
{
    if n > 0 {
        enough_rounds_keep_all(schedule, n - 1, rounds);
        assert(schedule.take(n - 1).push(schedule[n - 1]) =~= schedule.take(n));
    } else {
        assert(schedule.take(0) =~= seq![]);
    }
}

/// The run that the arguments ask for, from the one that is the default.
pub fn configure(args: &TrainArgs, base: TrainConfig) -> (r: TrainConfig)
    ensures
        r.seed == args.seed,
        r.subset == !args.no_subset,
        r.position_dependent == !args.corpus_args.no_position_dependent,
        r.graph == (GraphOptions {
            position_dependent: !args.corpus_args.no_position_dependent,
            ..base.graph
        }),
        r.stages == stages_left(*args, base.stages),
        r.schedule@ == (match args.sat_rounds {
            Some(rounds) => kept_stages(
                base.schedule@,
                base.schedule@.len() as int,
                rounds as int,
            ),
            None => base.schedule@,
        }),
{
    let stages = Stages {
        tri: base.stages.tri && !args.no_tri,
        lda: base.stages.lda && !args.no_tri && !args.no_lda,
        sat: base.stages.sat && !args.no_tri && !args.no_sat,
        pron_probs: base.stages.pron_probs && !args.no_pron_probs,
    };
    let mut graph: GraphOptions = base.graph;
    graph.position_dependent = !args.corpus_args.no_position_dependent;
    let schedule = match args.sat_rounds {
        Some(rounds) => keep_rounds(&base.schedule, rounds),
        None => base.schedule,
    };
    TrainConfig {
        seed: args.seed,
        subset: !args.no_subset,
        position_dependent: !args.corpus_args.no_position_dependent,
        stages,
        schedule,
        graph,
    }
}

/// Texts with arrows between them.
pub open spec fn chained(v: Seq<Seq<char>>, n: int) -> Seq<char>
    decreases n,
{
    if n <= 0 {
        seq![]
    } else if n == 1 {
        v[0]
    } else {
        chained(v, n - 1) + " -> "@ + v[n - 1]
    }
}

/// The keys of the stages as a chain.
pub fn stage_list(keys: &Vec<String>) -> (r: String)
    ensures
        r@ == chained(texts(keys@), keys@.len() as int),
{
    let ghost v = texts(keys@);
    let mut out = String::new();
    assert(out@ =~= chained(v, 0));
    let mut i: usize = 0;
    while i < keys.len()
        invariant
            v == texts(keys@),
            i <= keys@.len(),
            out@ == chained(v, i as int),
        decreases keys.len() - i,
    {
        assert(v[i as int] == keys@[i as int]@);
        if i > 0 {
            out.append(" -> ");
        }
        out.append(keys[i].as_str());
        assert(out@ =~= chained(v, i + 1));
        i += 1;
    }
    out
}

/// A count that stands before another: it is larger, or the same with an earlier name. Between equal
/// names the place decides.
pub open spec fn ranks_before(v: Seq<(Seq<char>, int)>, a: int, b: int) -> bool {
    ||| v[a].1 > v[b].1
    ||| v[a].1 == v[b].1 && before(v[a].0, v[b].0)
    ||| v[a].1 == v[b].1 && v[a].0 == v[b].0 && a < b
}

/// Number `i` put in its place among others: behind those that rank before it.
pub open spec fn placed(order: Seq<int>, v: Seq<(Seq<char>, int)>, i: int) -> Seq<int>
    decreases order.len(),
{
    if order.len() == 0 || ranks_before(v, order.last(), i) {
        order.push(i)
    } else {
        placed(order.drop_last(), v, i).push(order.last())
    }
}

/// The numbers of the first `n` counts, the largest count first, and among equal ones the first
/// name first.
pub open spec fn ranked(v: Seq<(Seq<char>, int)>, n: int) -> Seq<int>
    decreases n,
{
    if n <= 0 {
        seq![]
    } else {
        placed(ranked(v, n - 1), v, n - 1)
    }
}

proof fn rank_is_total(v: Seq<(Seq<char>, int)>, a: int, b: int)
    requires
        a != b,
    ensures
        ranks_before(v, a, b) != ranks_before(v, b, a),
{
    order_is_total(v[a].0, v[b].0);
}

proof fn rank_is_transitive(v: Seq<(Seq<char>, int)>, a: int, b: int, c: int)
    requires
        ranks_before(v, a, b),
        ranks_before(v, b, c),
    ensures
        ranks_before(v, a, c),
{
    if before(v[a].0, v[b].0) && before(v[b].0, v[c].0) {
        order_is_transitive(v[a].0, v[b].0, v[c].0);
    }
}

proof fn placing_keeps_rank(order: Seq<int>, v: Seq<(Seq<char>, int)>, i: int)
    requires
        forall|a: int, b: int|
            0 <= a < b < order.len() ==> #[trigger] ranks_before(v, order[a], order[b]),
        forall|a: int| 0 <= a < order.len() ==> 0 <= #[trigger] order[a] < i,
    ensures
        placed(order, v, i).len() == order.len() + 1,
        forall|a: int, b: int|
            0 <= a < b < placed(order, v, i).len() ==> #[trigger] ranks_before(
                v,
                placed(order, v, i)[a],
                placed(order, v, i)[b],
            ),
        forall|x: int| #[trigger] placed(order, v, i).contains(x) <==> x == i || order.contains(x),
    decreases order.len(),
{
    let p = placed(order, v, i);
    if order.len() == 0 || ranks_before(v, order.last(), i) {
        assert forall|a: int, b: int| 0 <= a < b < p.len() implies #[trigger] ranks_before(
            v,
            p[a],
            p[b],
        ) by {
            if b < order.len() {
                assert(ranks_before(v, order[a], order[b]));
            } else {
                if a < order.len() - 1 {
                    assert(ranks_before(v, order[a], order[order.len() - 1]));
                    rank_is_transitive(v, order[a], order[order.len() - 1], i);
                }
            }
        }
        assert forall|x: int| #[trigger] p.contains(x) <==> x == i || order.contains(x) by {
            if order.contains(x) {
                let j = choose|j: int| 0 <= j < order.len() && order[j] == x;
                assert(p[j] == x);
            }
            if x == i {
                assert(p[order.len() as int] == x);
            }
        }
    } else {
        let front = order.drop_last();
        let last = order.last();
        assert(0 <= order[order.len() - 1] < i);
        rank_is_total(v, last, i);
        assert forall|a: int, b: int| 0 <= a < b < front.len() implies #[trigger] ranks_before(
            v,
            front[a],
            front[b],
        ) by {
            assert(ranks_before(v, order[a], order[b]));
        }
        placing_keeps_rank(front, v, i);
        let q = placed(front, v, i);
        assert(p == q.push(last));
        assert forall|a: int, b: int| 0 <= a < b < p.len() implies #[trigger] ranks_before(
            v,
            p[a],
            p[b],
        ) by {
            if b < q.len() {
                assert(ranks_before(v, q[a], q[b]));
            } else {
                assert(q.contains(q[a]));
                if q[a] != i {
                    assert(front.contains(q[a]));
                    let j = choose|j: int| 0 <= j < front.len() && front[j] == q[a];
                    assert(ranks_before(v, order[j], order[order.len() - 1]));
                }
            }
        }
        assert forall|x: int| #[trigger] p.contains(x) <==> x == i || order.contains(x) by {
            if order.contains(x) {
                let j = choose|j: int| 0 <= j < order.len() && order[j] == x;
                if j < front.len() {
                    assert(front[j] == x);
                    assert(q.contains(x));
                    let k = choose|k: int| 0 <= k < q.len() && q[k] == x;
                    assert(p[k] == x);
                } else {
                    assert(p[q.len() as int] == x);
                }
            }
            if x == i {
                assert(q.contains(x));
                let k = choose|k: int| 0 <= k < q.len() && q[k] == x;
                assert(p[k] == x);
            }
            if p.contains(x) {
                let k = choose|k: int| 0 <= k < p.len() && p[k] == x;
                if k < q.len() {
                    assert(q.contains(x));
                    if x != i {
                        let j = choose|j: int| 0 <= j < front.len() && front[j] == x;
                        assert(order[j] == x);
                    }
                } else {
                    assert(order[order.len() - 1] == x);
                }
            }
        }
    }
}

/// The ranking holds every number once, and each stands before those that it ranks before.
pub proof fn ranking_is_sorted(v: Seq<(Seq<char>, int)>, n: int)
    requires
        0 <= n <= v.len(),
    ensures
        ranked(v, n).len() == n,
        forall|a: int, b: int|
            0 <= a < b < n ==> #[trigger] ranks_before(v, ranked(v, n)[a], ranked(v, n)[b]),
        forall|x: int| #[trigger] ranked(v, n).contains(x) <==> 0 <= x < n,
    decreases n,
{
    if n > 0 {
        ranking_is_sorted(v, n - 1);
        let first = ranked(v, n - 1);
        assert forall|a: int| 0 <= a < first.len() implies 0 <= #[trigger] first[a] < n - 1 by {
            assert(first.contains(first[a]));
        }
        placing_keeps_rank(first, v, n - 1);
        assert forall|x: int| #[trigger] ranked(v, n).contains(x) <==> 0 <= x < n by {
            assert(first.contains(x) <==> 0 <= x < n - 1);
            assert(placed(first, v, n - 1).contains(x) <==> x == n - 1 || first.contains(x));
        }
    }
}

/// Indices as integers.
pub open spec fn as_ints(v: Seq<usize>) -> Seq<int> {
    Seq::new(v.len(), |i: int| v[i] as int)
}

/// Whether a count stands before another.
fn outranks(v: &Vec<Counted>, a: usize, b: usize) -> (r: bool)
    requires
        a < v@.len(),
        b < v@.len(),
    ensures
        r == ranks_before(counts(v@), a as int, b as int),
{
    let ghost cv = counts(v@);
    proof {
        assert(cv[a as int] == (v@[a as int].name@, v@[a as int].count as int));
        assert(cv[b as int] == (v@[b as int].name@, v@[b as int].count as int));
    }
    if v[a].count != v[b].count {
        return v[a].count > v[b].count;
    }
    let x = chars_of(v[a].name.as_str());
    let y = chars_of(v[b].name.as_str());
    if is_before(x.as_slice(), y.as_slice()) {
        return true;
    }
    same_text(v[a].name.as_str(), v[b].name.as_str()) && a < b
}

/// Put an index in its place.
fn place(order: &mut Vec<usize>, v: &Vec<Counted>, i: usize)
    requires
        i < v@.len(),
        forall|a: int| 0 <= a < old(order)@.len() ==> #[trigger] old(order)@[a] < v@.len(),
    ensures
        as_ints(final(order)@) == placed(as_ints(old(order)@), counts(v@), i as int),
{
    let ghost all = as_ints(order@);
    let ghost cv = counts(v@);
    let mut pos: usize = order.len();
    let ghost want = placed(all, cv, i as int);
    proof {
        assert(all.take(pos as int) =~= all);
        assert(all.skip(pos as int) =~= seq![]);
        assert(placed(all.take(pos as int), cv, i as int) + all.skip(pos as int) =~= want);
    }
    while pos > 0 && !outranks(v, order[pos - 1], i)
        invariant
            *order == *old(order),
            all == as_ints(order@),
            cv == counts(v@),
            i < v@.len(),
            forall|a: int| 0 <= a < order@.len() ==> #[trigger] order@[a] < v@.len(),
            pos <= order@.len(),
            want == placed(all.take(pos as int), cv, i as int) + all.skip(pos as int),
        decreases pos,
    {
        proof {
            let t = all.take(pos as int);
            assert(t.last() == order@[pos - 1]);
            assert(t.drop_last() =~= all.take(pos - 1));
            assert(placed(t, cv, i as int) == placed(all.take(pos - 1), cv, i as int).push(
                all[pos - 1],
            ));
            assert(placed(t, cv, i as int) + all.skip(pos as int) =~= placed(
                all.take(pos - 1),
                cv,
                i as int,
            ) + all.skip(pos - 1));
        }
        pos -= 1;
    }
    order.insert(pos, i);
    proof {
        let t = all.take(pos as int);
        if pos > 0 {
            assert(t.last() == old(order)@[pos - 1]);
        }
        assert(placed(t, cv, i as int) == t.push(i as int));
        assert(as_ints(order@) =~= t.push(i as int) + all.skip(pos as int));
    }
}

/// How many unknown words are listed.
pub const LISTED: usize = 10;

/// The unknown words that occur most often, with their counts, the most frequent first.
pub fn top_unknown(v: &Vec<Counted>) -> (r: Vec<Counted>)
    ensures
        ({
            let order = ranked(counts(v@), v@.len() as int);
            let n = if v@.len() < LISTED {
                v@.len() as int
            } else {
                LISTED as int
            };
            counts(r@) == Seq::new(n as nat, |i: int| counts(v@)[order[i]])
        }),
{
    let ghost cv = counts(v@);
    let mut order: Vec<usize> = Vec::new();
    assert(as_ints(order@) =~= ranked(cv, 0));
    let mut i: usize = 0;
    while i < v.len()
        invariant
            cv == counts(v@),
            i <= v@.len(),
            as_ints(order@) == ranked(cv, i as int),
            order@.len() == i,
            forall|a: int| 0 <= a < order@.len() ==> #[trigger] order@[a] < v@.len(),
        decreases v.len() - i,
    {
        place(&mut order, v, i);
        proof {
            ranking_is_sorted(cv, i + 1);
            assert(as_ints(order@).len() == i + 1);
            assert forall|a: int| 0 <= a < order@.len() implies #[trigger] order@[a]
                < v@.len() by {
                assert(as_ints(order@)[a] == order@[a]);
                assert(ranked(cv, i + 1).contains(as_ints(order@)[a]));
            }
        }
        i += 1;
    }
    let n: usize = if v.len() < LISTED {
        v.len()
    } else {
        LISTED
    };
    let ghost ranking = ranked(cv, v@.len() as int);
    let mut out: Vec<Counted> = Vec::new();
    assert(counts(out@) =~= Seq::new(0, |k: int| cv[ranking[k]]));
    let mut k: usize = 0;
    while k < n
        invariant
            cv == counts(v@),
            n <= order@.len(),
            ranking == as_ints(order@),
            forall|a: int| 0 <= a < order@.len() ==> #[trigger] order@[a] < v@.len(),
            k <= n,
            out@.len() == k,
            counts(out@) == Seq::new(k as nat, |j: int| cv[ranking[j]]),
        decreases n - k,
    {
        let c = &v[order[k]];
        assert(ranking[k as int] == order@[k as int]);
        let ghost had = out@;
        let ghost at = order@[k as int] as int;
        out.push(Counted { name: String::from_str(c.name.as_str()), count: c.count });
        proof {
            assert(counts(out@)[k as int] == cv[at]);
            assert forall|j: int| 0 <= j < k + 1 implies #[trigger] counts(out@)[j]
                == cv[ranking[j]] by {
                if j < k {
                    assert(out@[j] == had[j]);
                    assert(counts(had)[j] == cv[ranking[j]]);
                }
            }
            assert(counts(out@) =~= Seq::new((k + 1) as nat, |j: int| cv[ranking[j]]));
        }
        k += 1;
    }
    out
}

/// The last utterance with an id.
pub open spec fn last_with_id(utts: Seq<Utterance>, n: int, id: Seq<char>) -> Option<int>
    decreases n,
{
    if n <= 0 {
        None
    } else if utts[n - 1].id@ == id {
        Some(n - 1)
    } else {
        last_with_id(utts, n - 1, id)
    }
}

/// Find the utterance of an alignment: the last one with its id.
pub fn utterance_of(utts: &Vec<Utterance>, id: &str) -> (r: Option<usize>)
    ensures
        (match r {
            Some(i) => Some(i as int),
            None => None,
        }) == last_with_id(utts@, utts@.len() as int, id@),
        r matches Some(i) ==> i < utts@.len(),
{
    let mut n: usize = utts.len();
    while n > 0
        invariant
            n <= utts@.len(),
            last_with_id(utts@, utts@.len() as int, id@) == last_with_id(utts@, n as int, id@),
        decreases n,
    {
        if same_text(utts[n - 1].id.as_str(), id) {
            return Some(n - 1);
        }
        n -= 1;
    }
    None
}

/// How long the TextGrid of an utterance is in seconds: as long as its audio, or as its alignment if
/// the audio cannot be read or has no rate.
pub fn grid_duration<F: Fn(FloatOp) -> u64>(audio: Option<&Audio>, aligned_s: u32, f: &F) -> (r: u64)
    requires
        is_evaluator(*f),
    ensures
        r == (match audio {
            Some(a) if a.sample_rate > 0 => wide_value(
                *f,
                FloatOp::DivWide(
                    wide_value(*f, FloatOp::CountWide(a.samples@.len() as u64)),
                    wide_value(*f, FloatOp::CountWide(a.sample_rate as u64)),
                ),
            ),
            _ => wide_value(*f, FloatOp::Widen(aligned_s)),
        }),
{
    match audio {
        Some(a) => {
            if a.sample_rate > 0 {
                let n: u64 = eval_wide(f, FloatOp::CountWide(a.samples.len() as u64));
                let rate: u64 = eval_wide(f, FloatOp::CountWide(a.sample_rate as u64));
                return eval_wide(f, FloatOp::DivWide(n, rate));
            }
        },
        None => {},
    }
    eval_wide(f, FloatOp::Widen(aligned_s))
}

} // verus!
