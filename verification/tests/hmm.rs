use viter::float::FloatOp;
use viter::hmm::construct::{build_graph, try_build_graph, GraphOptions};
use viter::hmm::context::ContextDependency;
use viter::hmm::error::HmmError;
use viter::hmm::graph::{graph_pdfs, Arc, Graph, GraphState, NO_PRON, NO_WORD};
use viter::hmm::selfloops::make_preceding_input_symbols_same_class;
use viter::hmm::topology::{
    HmmState, HmmTopology, TopologyEntry, TopologyFault, NO_PDF,
};
use viter::hmm::transition::{
    MleTransitionUpdateConfig, ProbsFault, TransitionAccs, TransitionModel, Tuple, TupleLogProbs,
};
use viter::hmm::utils::{
    change_reordering, convert_alignment, is_reordered, split_to_phones, split_to_phones_checked,
    to_intervals, try_to_intervals,
};
use viter::types::{Alignment, PhoneId, Pronunciation, TransitionId, WordId};

fn single(x: f32) -> u64 {
    x.to_bits() as u64
}

fn ieee(op: FloatOp) -> u64 {
    let s = f32::from_bits;
    let d = f64::from_bits;
    match op {
        FloatOp::Add(a, b) => single(s(a) + s(b)),
        FloatOp::Sub(a, b) => single(s(a) - s(b)),
        FloatOp::Mul(a, b) => single(s(a) * s(b)),
        FloatOp::Div(a, b) => single(s(a) / s(b)),
        FloatOp::Ln(a) => single(s(a).ln()),
        FloatOp::Exp(a) => single(s(a).exp()),
        FloatOp::Pow(a, b) => single(s(a).powf(s(b))),
        FloatOp::Sqrt(a) => single(s(a).sqrt()),
        FloatOp::Round(a) => single(s(a).round()),
        FloatOp::Sin(a) => single(s(a).sin()),
        FloatOp::Cos(a) => single(s(a).cos()),
        FloatOp::Trunc(a) => s(a) as u64,
        FloatOp::SqrtWide(a) => d(a).sqrt().to_bits(),
        FloatOp::SinWide(a) => d(a).sin().to_bits(),
        FloatOp::CosWide(a) => d(a).cos().to_bits(),
        FloatOp::PowWide(a, b) => d(a).powf(d(b)).to_bits(),
        FloatOp::RoundWide(a) => d(a).round().to_bits(),
        FloatOp::TruncWide(a) => d(a) as u64,
        FloatOp::TruncSigned(a) => d(a) as i64 as u64,
        FloatOp::Count(n) => single(n as f32),
        FloatOp::Widen(a) => (s(a) as f64).to_bits(),
        FloatOp::Narrow(a) => single(d(a) as f32),
        FloatOp::AddWide(a, b) => (d(a) + d(b)).to_bits(),
        FloatOp::SubWide(a, b) => (d(a) - d(b)).to_bits(),
        FloatOp::MulWide(a, b) => (d(a) * d(b)).to_bits(),
        FloatOp::DivWide(a, b) => (d(a) / d(b)).to_bits(),
        FloatOp::LnWide(a) => d(a).ln().to_bits(),
        FloatOp::ExpWide(a) => d(a).exp().to_bits(),
        FloatOp::CountWide(n) => (n as f64).to_bits(),
    }
}

fn f(x: u32) -> f32 {
    f32::from_bits(x)
}

fn plain(words: &[&[PhoneId]]) -> Vec<Vec<Pronunciation>> {
    words.iter().map(|p| vec![Pronunciation::plain(p.to_vec())]).collect()
}

fn topo() -> HmmTopology {
    HmmTopology::mfa_default(&[1, 2], &[3, 4, 5], 5, 3, &ieee)
}

fn steps(v: &[(usize, f32)]) -> Vec<(usize, u32)> {
    v.iter().map(|(d, p)| (*d, p.to_bits())).collect()
}

#[test]
fn mfa_default_shapes() {
    let t = topo();
    assert_eq!(t.entries.len(), 2);
    assert_eq!(t.topology_for_phone(1).len(), 6);
    assert_eq!(t.topology_for_phone(3).len(), 4);
    assert_eq!(t.num_pdf_classes(1), 5);
    assert_eq!(t.num_pdf_classes(3), 3);
    assert_eq!(t.phones(), vec![1, 2, 3, 4, 5]);
    t.check(&ieee).expect("mfa default topology must be valid");
}

#[test]
fn silence_transitions_match_mfa() {
    let t = topo();
    let sil = t.topology_for_phone(1);
    let q = 0.25f32;
    assert_eq!(sil[0].transitions, steps(&[(0, q), (1, q), (2, q), (3, q)]));
    assert_eq!(sil[1].transitions, steps(&[(1, q), (2, q), (3, q), (4, q)]));
    assert_eq!(sil[4].transitions, steps(&[(4, 0.75), (5, 0.25)]));
    assert!(!sil[5].is_emitting());
    assert!(sil[5].transitions.is_empty());
}

#[test]
fn bakis_transitions() {
    let t = topo();
    let p = t.topology_for_phone(4);
    assert_eq!(p[0].transitions, steps(&[(0, 0.5), (1, 0.5)]));
    assert_eq!(p[1].transitions, steps(&[(1, 0.5), (2, 0.5)]));
    assert_eq!(p[2].transitions, steps(&[(3, 1.0)]));
    assert_eq!(p[0].self_loop_index(0), Some(0));
    assert_eq!(p[2].self_loop_index(2), None);
}

#[test]
fn min_lengths() {
    let t = topo();
    assert_eq!(t.min_length(3), 3);
    assert_eq!(t.min_length(1), 3);
}

#[test]
fn phone_to_num_pdf_classes_indexed_by_phone() {
    let t = topo();
    let v = t.phone_to_num_pdf_classes();
    assert_eq!(v[1], 5);
    assert_eq!(v[3], 3);
    assert_eq!(v[0], 0);
}

#[test]
fn uncovered_phone_is_none() {
    let t = topo();
    assert!(t.try_for_phone(99).is_none());
}

fn one_entry(states: Vec<HmmState>) -> HmmTopology {
    HmmTopology { entries: vec![TopologyEntry { phones: vec![1], states }] }
}

fn state(class: i32, v: &[(usize, f32)]) -> HmmState {
    HmmState::new(class, steps(v))
}

#[test]
fn broken_topologies_are_found_out() {
    let last = || state(NO_PDF, &[]);
    let check = |v: Vec<HmmState>| one_entry(v).check(&ieee);
    assert!(check(vec![state(0, &[(1, 1.0)]), last()]).is_ok());
    assert!(matches!(check(vec![last()]), Err(TopologyFault::TooFewStates)));
    assert!(matches!(
        check(vec![state(0, &[(1, 1.0)]), state(1, &[(1, 1.0)])]),
        Err(TopologyFault::LastStateNotFinal)
    ));
    assert!(matches!(
        check(vec![state(0, &[]), last()]),
        Err(TopologyFault::NoTransitions { state: 0 })
    ));
    assert!(matches!(
        check(vec![state(0, &[(1, 0.5)]), last()]),
        Err(TopologyFault::BadSum { state: 0, .. })
    ));
    assert!(matches!(
        check(vec![state(0, &[(7, 1.0)]), last()]),
        Err(TopologyFault::DestinationOutOfRange { dest: 7 })
    ));
    assert!(matches!(
        check(vec![state(1, &[(1, 1.0)]), last()]),
        Err(TopologyFault::ClassesNotContiguous)
    ));
    assert!(matches!(
        check(vec![state(2, &[(1, 1.0)]), last()]),
        Err(TopologyFault::ClassOutOfRange { class: 2 })
    ));
    assert!(matches!(
        check(vec![state(0, &[(0, 0.0), (1, 1.0)]), last()]),
        Err(TopologyFault::NonPositiveProbability)
    ));
}

/// Phones whose first state has no self-loop and skips to every later state, and whose last state
/// has none either.
fn skipping() -> HmmTopology {
    let third = 1.0f32 / 3.0;
    let mut t = HmmTopology::mfa_default(&[1], &[2, 3], 5, 3, &ieee);
    t.entries[1].states = vec![
        state(0, &[(1, third), (2, third), (3, third)]),
        state(1, &[(1, 0.5), (2, 0.5)]),
        state(2, &[(3, 1.0)]),
        state(NO_PDF, &[]),
    ];
    t
}

/// Phones with a self-loop on every state.
fn looping() -> HmmTopology {
    let mut t = HmmTopology::mfa_default(&[1], &[2, 3], 5, 3, &ieee);
    t.entries[1].states = vec![
        state(0, &[(0, 0.5), (1, 0.5)]),
        state(1, &[(1, 0.5), (2, 0.5)]),
        state(2, &[(2, 0.5), (3, 0.5)]),
        state(NO_PDF, &[]),
    ];
    t
}

fn model(topo: &HmmTopology, phones: &[PhoneId]) -> (ContextDependency, TransitionModel) {
    let sets: Vec<Vec<PhoneId>> = phones.iter().map(|p| vec![*p]).collect();
    let t = topo.clone();
    let ctx = ContextDependency::monophone_shared(&sets, &move |p: PhoneId| t.num_pdf_classes(p));
    let tm = TransitionModel::new(&ctx, topo, &ieee);
    (ctx, tm)
}

fn setup() -> (ContextDependency, HmmTopology, TransitionModel) {
    let topo = skipping();
    let (ctx, tm) = model(&topo, &[1, 2, 3]);
    (ctx, topo, tm)
}

fn state_of(tm: &TransitionModel, phone: PhoneId, hmm_state: usize) -> u32 {
    tm.tuples().iter().position(|t| t.phone == phone && t.hmm_state == hmm_state).unwrap() as u32
        + 1
}

fn key(t: &Tuple) -> (PhoneId, usize, u32, u32) {
    (t.phone, t.hmm_state, t.forward_pdf, t.self_loop_pdf)
}

#[test]
fn tuples_are_sorted_and_cover_every_state() {
    let (_, topo, tm) = setup();
    assert!(tm.tuples().windows(2).all(|w| key(&w[0]) < key(&w[1])));
    let expected: usize =
        topo.phones().iter().map(|&p| topo.topology_for_phone(p).len() - 1).sum();
    assert_eq!(tm.num_transition_states(), expected);
    assert_eq!(tm.num_transition_states(), 11);
}

#[test]
fn transition_id_round_trips() {
    let (_, _, tm) = setup();
    for tid in 1..=tm.num_transition_ids() as TransitionId {
        let ts = tm.transition_id_to_transition_state(tid);
        let idx = tm.transition_id_to_transition_index(tid);
        assert_eq!(tm.pair_to_transition_id(ts, idx as u32), tid);
        let phone = tm.transition_state_to_phone(ts);
        let hs = tm.transition_state_to_hmm_state(ts);
        let fwd = tm.transition_state_to_forward_pdf(ts);
        let s = tm.transition_state_to_self_loop_pdf(ts);
        assert_eq!(tm.tuple_to_transition_state(phone, hs, fwd, s), ts);
    }
}

#[test]
fn ids_are_contiguous_and_one_based() {
    let (_, _, tm) = setup();
    let expected: usize = tm
        .tuples()
        .iter()
        .map(|t| tm.topology().topology_for_phone(t.phone)[t.hmm_state].transitions.len())
        .sum();
    assert_eq!(expected, 12 + 18);
    assert_eq!(tm.num_transition_ids(), expected);
    assert_eq!(tm.pair_to_transition_id(1, 0), 1);
}

#[test]
fn self_loop_and_final_flags() {
    let (_, _, tm) = setup();
    let ts0 = state_of(&tm, 2, 0);
    assert_eq!(tm.self_loop_of(ts0), None);
    assert_eq!(tm.num_transition_indices(ts0), 3);
    assert!(!tm.is_final(tm.pair_to_transition_id(ts0, 0)));
    assert!(!tm.is_final(tm.pair_to_transition_id(ts0, 1)));
    assert!(tm.is_final(tm.pair_to_transition_id(ts0, 2)));

    let ts = state_of(&tm, 2, 1);
    let loop_tid = tm.self_loop_of(ts).unwrap();
    assert!(tm.is_self_loop(loop_tid));
    assert!(!tm.is_final(loop_tid));
    let fwd = tm.pair_to_transition_id(ts, 1);
    assert!(!tm.is_self_loop(fwd));
    assert!(!tm.is_final(fwd));

    let ts_last = state_of(&tm, 2, 2);
    assert_eq!(tm.self_loop_of(ts_last), None);
    assert_eq!(tm.num_transition_indices(ts_last), 1);
    assert!(tm.is_final(tm.pair_to_transition_id(ts_last, 0)));
}

fn prob(tm: &TransitionModel, t: TransitionId) -> f32 {
    f(tm.get_transition_prob(t, &ieee))
}

#[test]
fn log_probs_come_from_topology() {
    let (_, _, tm) = setup();
    let ts = state_of(&tm, 2, 1);
    let loop_tid = tm.self_loop_of(ts).unwrap();
    assert!((prob(&tm, loop_tid) - 0.5).abs() < 1e-6);
    assert!((f(tm.get_non_self_loop_log_prob(ts)) - 0.5f32.ln()).abs() < 1e-6);
    let fwd = tm.pair_to_transition_id(ts, 1);
    assert!(f(tm.get_transition_log_prob_ignoring_self_loops(fwd, &ieee)).abs() < 1e-6);
}

#[test]
fn transition_id_to_pdf_matches_ctx() {
    let (ctx, _, tm) = setup();
    for tid in 1..=tm.num_transition_ids() as TransitionId {
        let phone = tm.transition_id_to_phone(tid);
        let ts = tm.transition_id_to_transition_state(tid);
        let class = tm.transition_state_to_forward_pdf_class(ts);
        assert_eq!(tm.transition_id_to_pdf(tid), ctx.compute(&[phone], class).unwrap());
    }
}

#[test]
fn mle_update_moves_probs_toward_counts() {
    let (_, _, mut tm) = setup();
    let ts = state_of(&tm, 2, 1);
    let loop_tid = tm.self_loop_of(ts).unwrap();
    let fwd = tm.pair_to_transition_id(ts, 1);
    let mut stats = TransitionAccs::new(tm.num_transition_ids());
    tm.accumulate(&mut stats, loop_tid, 90.0f64.to_bits(), &ieee);
    tm.accumulate(&mut stats, fwd, 10.0f64.to_bits(), &ieee);
    let (objf, count) = tm.mle_update(&stats, &MleTransitionUpdateConfig::default(), &ieee);
    assert_eq!(f64::from_bits(count), 100.0);
    assert!(f64::from_bits(objf) > 0.0);
    assert!((prob(&tm, loop_tid) - 0.9).abs() < 1e-5);
    assert!((prob(&tm, fwd) - 0.1).abs() < 1e-5);
    assert!((f(tm.get_non_self_loop_log_prob(ts)) - 0.1f32.ln()).abs() < 1e-4);
}

#[test]
fn mle_update_skips_low_count_states_and_floors() {
    let (_, _, mut tm) = setup();
    let ts = state_of(&tm, 2, 1);
    let loop_tid = tm.self_loop_of(ts).unwrap();
    let fwd = tm.pair_to_transition_id(ts, 1);
    let before = prob(&tm, loop_tid);
    let mut stats = TransitionAccs::new(tm.num_transition_ids());
    tm.accumulate(&mut stats, loop_tid, 2.0f64.to_bits(), &ieee);
    tm.mle_update(&stats, &MleTransitionUpdateConfig::default(), &ieee);
    assert_eq!(prob(&tm, loop_tid), before);

    let mut stats = TransitionAccs::new(tm.num_transition_ids());
    tm.accumulate(&mut stats, loop_tid, 100.0f64.to_bits(), &ieee);
    tm.mle_update(&stats, &MleTransitionUpdateConfig::default(), &ieee);
    assert!((prob(&tm, fwd) - 0.01).abs() < 1e-5);
}

#[test]
fn silence_pdfs_are_only_silence() {
    let (ctx, _, tm) = setup();
    let sil = tm.silence_pdfs(&[1]);
    assert_eq!(sil.len(), 5);
    for class in 0..5 {
        assert!(sil.contains(&ctx.compute(&[1], class).unwrap()));
    }
}

#[test]
fn transition_counts_add_up() {
    let mut a = TransitionAccs::new(2);
    a.0[1] = 1.5f64.to_bits();
    let mut b = TransitionAccs::new(2);
    b.0[2] = 2.0f64.to_bits();
    a.add(&b, &ieee);
    assert_eq!(f64::from_bits(a.total(&ieee)), 3.5);
}

#[test]
fn foreign_log_probs_must_fit() {
    let (_, _, mut tm) = setup();
    let e = tm.set_log_probs_by_tuple(&Vec::new(), &ieee).unwrap_err();
    assert!(matches!(e, ProbsFault::Missing { .. }));
    let mut all: Vec<TupleLogProbs> = tm
        .tuples()
        .iter()
        .map(|t| {
            let n = tm.topology().topology_for_phone(t.phone)[t.hmm_state].transitions.len();
            TupleLogProbs { tuple: *t, log_probs: vec![(1.0f32 / n as f32).ln().to_bits(); n] }
        })
        .collect();
    tm.set_log_probs_by_tuple(&all, &ieee).unwrap();
    assert!((prob(&tm, 1) - 0.25).abs() < 1e-6);
    all[0].log_probs.pop();
    let e = tm.set_log_probs_by_tuple(&all, &ieee).unwrap_err();
    assert!(matches!(e, ProbsFault::WrongLength { want: 4, got: 3, .. }));
    assert!(!e.to_string().is_empty());
}

fn loops() -> (TransitionModel, ContextDependency) {
    let (ctx, tm) = model(&looping(), &[1, 2, 3]);
    (tm, ctx)
}

fn bakis_alignment(tm: &TransitionModel, phone: PhoneId, extra: &[usize]) -> Vec<TransitionId> {
    let mut out = Vec::new();
    for (hmm_state, &n) in extra.iter().enumerate() {
        let ts = state_of(tm, phone, hmm_state);
        let fwd = tm.topology().topology_for_phone(phone)[hmm_state]
            .transitions
            .iter()
            .position(|&(d, _)| d != hmm_state)
            .unwrap();
        out.push(tm.pair_to_transition_id(ts, fwd as u32));
        let loop_tid = tm.self_loop_of(ts).unwrap();
        for _ in 0..n {
            out.push(loop_tid);
        }
    }
    out
}

#[test]
fn detects_reordering() {
    let (tm, _) = loops();
    let ali = bakis_alignment(&tm, 2, &[1, 0, 2]);
    assert!(is_reordered(&tm, &ali));
}

#[test]
fn split_to_phones_one_phone() {
    let (tm, _) = loops();
    let ali = bakis_alignment(&tm, 2, &[1, 0, 2]);
    let (runs, ok) = split_to_phones_checked(&tm, &ali);
    assert!(ok);
    assert_eq!(runs.len(), 1);
    assert_eq!(runs[0].len(), ali.len());
}

#[test]
fn split_to_phones_two_phones() {
    let (tm, _) = loops();
    let mut ali = bakis_alignment(&tm, 2, &[0, 1, 0]);
    let second = bakis_alignment(&tm, 3, &[2, 0, 0]);
    let first_len = ali.len();
    ali.extend_from_slice(&second);
    let (runs, ok) = split_to_phones_checked(&tm, &ali);
    assert!(ok);
    assert_eq!(runs.len(), 2);
    assert_eq!(runs[0].len(), first_len);
    assert_eq!(runs[1].len(), second.len());
    assert_eq!(tm.transition_id_to_phone(runs[0][0]), 2);
    assert_eq!(tm.transition_id_to_phone(runs[1][0]), 3);
}

#[test]
fn whole_phones_have_one_leaving_transition() {
    let (tm, _) = loops();
    let mut ali = bakis_alignment(&tm, 2, &[0, 1, 2]);
    ali.extend(bakis_alignment(&tm, 3, &[2, 0, 0]));
    ali.extend(bakis_alignment(&tm, 3, &[0, 0, 3]));
    let (runs, ok) = split_to_phones_checked(&tm, &ali);
    assert!(ok);
    assert_eq!(runs.len(), 3);
    for run in &runs {
        assert_eq!(run.iter().filter(|t| tm.is_final(**t)).count(), 1);
    }
}

#[test]
fn split_to_phones_empty() {
    let (tm, _) = loops();
    assert!(split_to_phones(&tm, &[]).is_empty());
}

#[test]
fn convert_alignment_is_identity_for_the_same_model() {
    let (tm, ctx) = loops();
    let mut ali = bakis_alignment(&tm, 2, &[1, 0, 1]);
    ali.extend(bakis_alignment(&tm, 3, &[0, 2, 0]));
    let out = convert_alignment(&tm, &tm, &ctx, 1, &ali).expect("conversion must succeed");
    assert_eq!(out, ali);
}

#[test]
fn convert_alignment_empty() {
    let (tm, ctx) = loops();
    assert_eq!(convert_alignment(&tm, &tm, &ctx, 1, &[]), Some(Vec::new()));
}

#[test]
fn change_reordering_round_trips() {
    let (tm, _) = loops();
    let ali = bakis_alignment(&tm, 2, &[2, 1, 0]);
    let flipped = change_reordering(&tm, &ali);
    assert_ne!(flipped, ali);
    assert!(!is_reordered(&tm, &flipped));
    let back = change_reordering(&tm, &flipped);
    assert_eq!(back, ali);
}

fn alignment(tids: Vec<TransitionId>, words: Vec<WordId>) -> Alignment {
    let prons = vec![0; words.len()];
    Alignment { utt: "u".to_string(), tids, words, prons, loglike: 0 }
}

#[test]
fn to_intervals_phone_boundaries() {
    let (tm, _) = loops();
    let mut ali = bakis_alignment(&tm, 2, &[1, 0, 0]);
    let n1 = ali.len();
    ali.extend(bakis_alignment(&tm, 3, &[0, 0, 1]));
    let total = ali.len();
    let a = alignment(ali, vec![0, 1]);
    let iv = to_intervals(&tm, &a, &plain(&[&[2], &[3]]), 0.01f32.to_bits());
    assert_eq!(iv.phones.len(), 2);
    assert_eq!(iv.phones[0].phone, 2);
    assert_eq!(iv.phones[0].start_frame, 0);
    assert_eq!(iv.phones[0].end_frame, n1 as u32);
    assert_eq!(iv.phones[1].end_frame, total as u32);
    assert_eq!(iv.num_frames(), total as u32);
    assert_eq!(iv.words.len(), 2);
    assert_eq!(iv.words[0].start_frame, 0);
    assert_eq!(iv.words[1].end_frame, total as u32);
}

#[test]
fn to_intervals_skips_inserted_silence() {
    let (tm, _) = loops();
    let sil_ts = state_of(&tm, 1, 4);
    let sil_final = tm.pair_to_transition_id(sil_ts, 1);
    let mut ali = vec![sil_final];
    ali.extend(bakis_alignment(&tm, 2, &[0, 0, 0]));
    let a = alignment(ali, vec![0]);
    let iv = to_intervals(&tm, &a, &plain(&[&[2]]), 0.01f32.to_bits());
    assert_eq!(iv.phones[0].phone, 1);
    assert_eq!(iv.words.len(), 1);
    assert_eq!(iv.words[0].start_frame, 1);
    let again = try_to_intervals(&tm, &a, &plain(&[&[2]]), 0.01f32.to_bits()).unwrap();
    assert_eq!(again.words[0].end_frame, iv.words[0].end_frame);
}

fn mono_setup() -> (TransitionModel, ContextDependency, GraphOptions) {
    let topo = HmmTopology::mfa_default(&[1], &[2, 3, 4], 5, 3, &ieee);
    let (ctx, tm) = model(&topo, &[1, 2, 3, 4]);
    let opts = GraphOptions { silence_phone: 1, ..Default::default() };
    (tm, ctx, opts)
}

fn assert_coaccessible(g: &Graph) {
    let n = g.num_states();
    let mut back: Vec<Vec<u32>> = vec![Vec::new(); n];
    for (s, st) in g.states.iter().enumerate() {
        for a in &st.arcs {
            back[a.next as usize].push(s as u32);
        }
    }
    let mut seen = vec![false; n];
    let mut stack: Vec<u32> = g.finals.iter().map(|(s, _)| *s).collect();
    for s in &stack {
        seen[*s as usize] = true;
    }
    while let Some(s) = stack.pop() {
        for &p in &back[s as usize] {
            if !seen[p as usize] {
                seen[p as usize] = true;
                stack.push(p);
            }
        }
    }
    assert!(seen.iter().all(|b| *b), "graph has states that cannot reach a final state");
}

fn arcs(g: &Graph) -> Vec<Arc> {
    g.states.iter().flat_map(|s| s.arcs.iter()).copied().collect()
}

#[test]
fn single_word_graph_is_wellformed() {
    let (tm, ctx, opts) = mono_setup();
    let g = build_graph(&plain(&[&[2, 3]]), &tm, &ctx, &opts, &ieee);
    assert!(!g.finals.is_empty());
    assert_coaccessible(&g);
    for a in arcs(&g) {
        assert!(a.tid as usize <= tm.num_transition_ids());
        assert!(f(a.cost).is_finite(), "arc cost must be finite");
    }
}

#[test]
fn word_label_on_first_arc_only() {
    let (tm, ctx, opts) = mono_setup();
    let g = build_graph(&plain(&[&[2, 3], &[4]]), &tm, &ctx, &opts, &ieee);
    let mut labels: Vec<WordId> =
        arcs(&g).iter().filter(|a| a.word != NO_WORD).map(|a| a.word).collect();
    labels.sort_unstable();
    labels.dedup();
    assert_eq!(labels, vec![0, 1]);
    for a in arcs(&g) {
        if a.word != NO_WORD {
            assert_ne!(a.tid, 0, "word label must sit on an emitting arc");
            assert_eq!(tm.transition_id_to_hmm_state(a.tid), 0);
        }
    }
}

#[test]
fn self_loops_are_present_and_scaled() {
    let (tm, ctx, opts) = mono_setup();
    let g = build_graph(&plain(&[&[2]]), &tm, &ctx, &opts, &ieee);
    let mut found = 0;
    for (s, st) in g.states.iter().enumerate() {
        for a in &st.arcs {
            if a.next as usize == s && a.tid != 0 {
                assert!(tm.is_self_loop(a.tid));
                let expect = -f(opts.self_loop_scale) * f(tm.get_transition_log_prob(a.tid));
                assert!((f(a.cost) - expect).abs() < 1e-5, "self-loop cost mis-scaled");
                found += 1;
            }
        }
    }
    assert!(found > 0, "graph should contain self-loops");
}

#[test]
fn reorder_places_self_loop_after_forward_transition() {
    let (tm, ctx, opts) = mono_setup();
    let g = build_graph(&plain(&[&[2]]), &tm, &ctx, &opts, &ieee);
    for (s, st) in g.states.iter().enumerate() {
        for a in &st.arcs {
            if a.tid == 0 || a.next as usize == s {
                continue;
            }
            if tm.transition_id_to_phone(a.tid) != 2 {
                continue;
            }
            let tstate = tm.transition_id_to_transition_state(a.tid);
            let Some(loop_tid) = tm.self_loop_of(tstate) else {
                continue;
            };
            let dest = &g.states[a.next as usize];
            assert!(dest.arcs.iter().any(|x| x.tid == loop_tid && x.next == a.next));
        }
    }
}

#[test]
fn optional_silence_branches_exist() {
    let (tm, ctx, opts) = mono_setup();
    let g = build_graph(&plain(&[&[2], &[3]]), &tm, &ctx, &opts, &ieee);
    let uses_silence = arcs(&g).iter().any(|a| a.tid != 0 && tm.transition_id_to_phone(a.tid) == 1);
    assert!(uses_silence, "optional silence should appear in the graph");
    assert_coaccessible(&g);
}

#[test]
fn silence_probability_costs_match_neg_log() {
    let (tm, ctx, mut opts) = mono_setup();
    opts.silence_prob = 0.25f32.to_bits();
    opts.initial_silence_prob = 0.25f32.to_bits();
    let g = build_graph(&plain(&[&[2]]), &tm, &ctx, &opts, &ieee);
    let eps_costs: Vec<f32> = arcs(&g).iter().filter(|a| a.tid == 0).map(|a| f(a.cost)).collect();
    let want_sil = -0.25f32.ln();
    let want_non = -0.75f32.ln();
    assert!(eps_costs.iter().any(|c| (c - want_sil).abs() < 1e-5));
    assert!(eps_costs.iter().any(|c| (c - want_non).abs() < 1e-5));
}

#[test]
fn final_corrections_applied() {
    let (tm, ctx, mut opts) = mono_setup();
    opts.final_silence_correction = 0.5f32.to_bits();
    opts.final_non_silence_correction = 2.0f32.to_bits();
    let g = build_graph(&plain(&[&[2]]), &tm, &ctx, &opts, &ieee);
    let offsets: Vec<f32> = g
        .finals
        .iter()
        .map(|&(s, c)| {
            let ts = arcs(&g)
                .iter()
                .find(|a| a.next == s && a.tid != 0)
                .map(|a| tm.transition_id_to_transition_state(a.tid));
            let adj = ts.map_or(0.0, |t| {
                -f(opts.self_loop_scale) * f(tm.get_non_self_loop_log_prob(t))
            });
            f(c) - adj
        })
        .collect();
    assert!(offsets.iter().any(|c| (c + 0.5f32.ln()).abs() < 1e-5));
    assert!(offsets.iter().any(|c| (c + 2.0f32.ln()).abs() < 1e-5));
}

#[test]
fn empty_utterance_is_silence_only() {
    let (tm, ctx, opts) = mono_setup();
    let g = build_graph(&plain(&[]), &tm, &ctx, &opts, &ieee);
    assert!(!g.finals.is_empty());
    assert_coaccessible(&g);
    for a in arcs(&g) {
        if a.tid != 0 {
            assert_eq!(tm.transition_id_to_phone(a.tid), 1);
        }
    }
}

#[test]
fn graph_pdfs_are_sorted_unique_and_in_range() {
    let (tm, ctx, opts) = mono_setup();
    let g = build_graph(&plain(&[&[2, 3]]), &tm, &ctx, &opts, &ieee);
    let pdfs = graph_pdfs(&g, &tm);
    assert!(!pdfs.is_empty());
    assert!(pdfs.windows(2).all(|w| w[0] < w[1]));
    assert!(pdfs.iter().all(|p| (*p as usize) < tm.num_pdfs()));
}

#[test]
fn forward_arc_cost_matches_add_transition_probs() {
    let (tm, ctx, opts) = mono_setup();
    let g = build_graph(&plain(&[&[2]]), &tm, &ctx, &opts, &ieee);
    for (s, st) in g.states.iter().enumerate() {
        let mut entering: Option<u32> = None;
        let mut ok = true;
        for (t, tst) in g.states.iter().enumerate() {
            for a in &tst.arcs {
                if a.next as usize == s && a.tid != 0 && t != s {
                    let ts = tm.transition_id_to_transition_state(a.tid);
                    match entering {
                        None => entering = Some(ts),
                        Some(prev) if prev != ts => ok = false,
                        _ => {}
                    }
                }
            }
        }
        let Some(ts) = entering else { continue };
        if !ok {
            continue;
        }
        for a in &st.arcs {
            if a.tid == 0 || a.next as usize == s {
                continue;
            }
            let want = -f(opts.transition_scale)
                * f(tm.get_transition_log_prob_ignoring_self_loops(a.tid, &ieee))
                - f(opts.self_loop_scale) * f(tm.get_non_self_loop_log_prob(ts));
            assert!((f(a.cost) - want).abs() < 1e-5);
        }
    }
}

#[test]
fn silence_after_prob_sets_the_branch_costs() {
    let (tm, ctx, mut opts) = mono_setup();
    opts.self_loop_scale = 0.0f32.to_bits();
    let p = 0.9f32;
    let words = vec![vec![Pronunciation {
        phones: vec![2],
        prob: None,
        silence_after_prob: Some(p.to_bits()),
        silence_before_correction: None,
        non_silence_before_correction: None,
    }]];
    let g = build_graph(&words, &tm, &ctx, &opts, &ieee);
    let mut eps: Vec<f32> = Vec::new();
    for (s, st) in g.states.iter().enumerate() {
        if s == 0 {
            continue;
        }
        for a in &st.arcs {
            if a.tid == 0 && a.word == NO_WORD {
                eps.push(f(a.cost));
            }
        }
    }
    let want_sil = -p.ln();
    let want_nonsil = -(1.0 - p).ln();
    assert!(eps.iter().any(|c| (c - want_sil).abs() < 1e-4), "saw {eps:?}");
    assert!(eps.iter().any(|c| (c - want_nonsil).abs() < 1e-4), "saw {eps:?}");
    assert!(want_sil < want_nonsil);
    assert!(((want_nonsil - want_sil) - (p / (1.0 - p)).ln()).abs() < 1e-5);
    assert_coaccessible(&g);
}

#[test]
fn pron_probability_floors_at_one_percent() {
    let (tm, ctx, mut opts) = mono_setup();
    opts.self_loop_scale = 0.0f32.to_bits();
    for (prob, want) in [(0.5f32, 0.5f32.ln().abs()), (0.001, 0.01f32.ln().abs())] {
        let words = vec![vec![Pronunciation {
            phones: vec![2],
            prob: Some(prob.to_bits()),
            silence_after_prob: None,
            silence_before_correction: None,
            non_silence_before_correction: None,
        }]];
        let g = build_graph(&words, &tm, &ctx, &opts, &ieee);
        let found = arcs(&g).iter().any(|a| a.tid == 0 && (f(a.cost) - want).abs() < 1e-4);
        assert!(found, "no entry arc costing {want} for prob {prob}");
    }
}

#[test]
fn every_pronunciation_is_tagged_with_its_index() {
    let (tm, ctx, opts) = mono_setup();
    let words =
        vec![vec![Pronunciation::plain(vec![2, 3]), Pronunciation::plain(vec![4])]];
    let g = build_graph(&words, &tm, &ctx, &opts, &ieee);
    let mut seen: Vec<(WordId, u32)> =
        arcs(&g).iter().filter(|a| a.word != NO_WORD).map(|a| (a.word, a.pron)).collect();
    seen.sort_unstable();
    seen.dedup();
    assert_eq!(seen, vec![(0, 0), (0, 1)]);
    assert_coaccessible(&g);
}

#[test]
fn unknown_phones_give_no_graph() {
    let (tm, ctx, opts) = mono_setup();
    assert!(try_build_graph(&plain(&[&[9]]), &tm, &ctx, &opts, &ieee).is_none());
}

#[test]
fn transition_costs_can_be_applied_later() {
    let (tm, ctx, opts) = mono_setup();
    let g = build_graph(&plain(&[&[2]]), &tm, &ctx, &opts, &ieee);
    let mut again = build_graph(&plain(&[&[2]]), &tm, &ctx, &opts, &ieee);
    again.apply_transition_probs(&tm, opts.transition_scale, opts.self_loop_scale, &ieee);
    let a: Vec<u32> = arcs(&g).iter().map(|x| x.cost).collect();
    let z: Vec<u32> = arcs(&again).iter().map(|x| x.cost).collect();
    assert_eq!(a, z);
    let end = g.finals[0].0;
    assert!(g.is_final(end));
    assert_eq!(g.final_cost(end), Some(g.finals[0].1));
    let empty = GraphState { arcs: vec![] };
    assert_eq!(empty.arcs.len(), 0);
    assert_eq!(NO_PRON, u32::MAX);
}

#[test]
fn hmm_errors_say_what_is_wrong() {
    assert_eq!(HmmError::Topology("no end".to_string()).to_string(), "invalid topology: no end");
    assert_eq!(
        HmmError::UncoveredPhone(7).to_string(),
        "phone 7 is not covered by the topology"
    );
    let e = HmmError::NoPdf { window: vec![1, 22, 3], pdf_class: -1 };
    assert_eq!(
        e.to_string(),
        "context-dependency object gave no pdf for window [1, 22, 3] pdf-class -1"
    );
}

fn labelled_paths(g: &Graph, s: u32, left: usize) -> Vec<Vec<u32>> {
    let mut out = Vec::new();
    for (t, cost) in &g.finals {
        if *t == s {
            out.push(vec![*cost]);
        }
    }
    if left > 0 {
        for a in &g.states[s as usize].arcs {
            for rest in labelled_paths(g, a.next, left - 1) {
                let mut path = vec![a.tid, a.word, a.pron, a.cost, a.lm];
                path.extend(rest);
                out.push(path);
            }
        }
    }
    out.sort();
    out
}

#[test]
fn splitting_keeps_labelled_paths_and_final_costs() {
    let (tm, _) = loops();
    let first = tm.pair_to_transition_id(state_of(&tm, 2, 0), 1);
    let second = tm.pair_to_transition_id(state_of(&tm, 3, 0), 1);
    let arc = |tid: u32, word: u32, next: u32| Arc {
        tid,
        word,
        pron: NO_PRON,
        next,
        cost: (word as f32).to_bits(),
        lm: 0,
    };
    let graph = || Graph {
        states: vec![
            GraphState { arcs: vec![arc(first, 0, 1), arc(second, 1, 1), arc(0, 2, 1)] },
            GraphState { arcs: vec![arc(first, 3, 2), arc(second, 4, 1)] },
            GraphState { arcs: vec![arc(second, 5, 2)] },
        ],
        finals: vec![(1, 2.0f32.to_bits()), (2, 3.0f32.to_bits())],
        finals_lm: vec![0, 0],
        state_in: vec![],
    };
    let before = graph();
    let mut after = graph();
    let state_in = make_preceding_input_symbols_same_class(&mut after, &tm).unwrap();
    assert_eq!(after.num_states(), 6);
    assert_eq!(state_in.len(), 6);
    for st in &after.states {
        for a in &st.arcs {
            let class = if a.tid == 0 {
                None
            } else {
                Some(tm.transition_id_to_transition_state(a.tid))
            };
            assert_eq!(state_in[a.next as usize], class);
        }
    }
    let paths = labelled_paths(&before, 0, 4);
    assert!(paths.len() > 10);
    assert_eq!(labelled_paths(&after, 0, 4), paths);
}
