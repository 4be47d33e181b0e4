use viter::align::equal::equal_align;
use viter::align::viterbi::{align, AlignOptions, Decoder, PreparedGraph, Token};
use viter::align::{alignment_to_posteriors, AlignError};
use viter::float::FloatOp;
use viter::gmm::matrix::Matrix;
use viter::hmm::construct::{build_graph, GraphOptions};
use viter::hmm::context::ContextDependency;
use viter::hmm::graph::{graph_pdfs, Arc, Graph, GraphState, NO_PRON, NO_WORD};
use viter::hmm::topology::{HmmState, HmmTopology, NO_PDF};
use viter::hmm::transition::TransitionModel;
use viter::hmm::utils::{split_to_phones, split_to_phones_checked};
use viter::random::{Draws, Listed, Random};
use viter::types::{Alignment, PdfId, PhoneId, Pronunciation};

fn single(x: f32) -> u64 {
    x.to_bits() as u64
}

fn ieee(op: FloatOp) -> u64 {
    let s = f32::from_bits;
    let d = f64::from_bits;
    match op {
        FloatOp::Add(a, b) => single(s(a) + s(b)),
        FloatOp::Sub(a, b) => single(s(a) - s(b)),
        FloatOp::Mul(a, b) => single(s(a) * s(b)),
        FloatOp::Div(a, b) => single(s(a) / s(b)),
        FloatOp::Ln(a) => single(s(a).ln()),
        FloatOp::Exp(a) => single(s(a).exp()),
        FloatOp::Pow(a, b) => single(s(a).powf(s(b))),
        FloatOp::Sqrt(a) => single(s(a).sqrt()),
        FloatOp::Round(a) => single(s(a).round()),
        FloatOp::Sin(a) => single(s(a).sin()),
        FloatOp::Cos(a) => single(s(a).cos()),
        FloatOp::Trunc(a) => s(a) as u64,
        FloatOp::SqrtWide(a) => d(a).sqrt().to_bits(),
        FloatOp::SinWide(a) => d(a).sin().to_bits(),
        FloatOp::CosWide(a) => d(a).cos().to_bits(),
        FloatOp::PowWide(a, b) => d(a).powf(d(b)).to_bits(),
        FloatOp::RoundWide(a) => d(a).round().to_bits(),
        FloatOp::TruncWide(a) => d(a) as u64,
        FloatOp::TruncSigned(a) => d(a) as i64 as u64,
        FloatOp::Count(n) => single(n as f32),
        FloatOp::Widen(a) => (s(a) as f64).to_bits(),
        FloatOp::Narrow(a) => single(d(a) as f32),
        FloatOp::AddWide(a, b) => (d(a) + d(b)).to_bits(),
        FloatOp::SubWide(a, b) => (d(a) - d(b)).to_bits(),
        FloatOp::MulWide(a, b) => (d(a) * d(b)).to_bits(),
        FloatOp::DivWide(a, b) => (d(a) / d(b)).to_bits(),
        FloatOp::LnWide(a) => d(a).ln().to_bits(),
        FloatOp::ExpWide(a) => d(a).exp().to_bits(),
        FloatOp::CountWide(n) => (n as f64).to_bits(),
    }
}

fn plain(words: &[&[PhoneId]]) -> Vec<Vec<Pronunciation>> {
    words.iter().map(|p| vec![Pronunciation::plain(p.to_vec())]).collect()
}

fn setup() -> (TransitionModel, ContextDependency, GraphOptions) {
    let topo = HmmTopology::mfa_default(&[1], &[2, 3], 5, 3, &ieee);
    let sets: Vec<Vec<PhoneId>> = vec![vec![1], vec![2], vec![3]];
    let t = topo.clone();
    let ctx = ContextDependency::monophone_shared(&sets, &move |p: PhoneId| t.num_pdf_classes(p));
    let tm = TransitionModel::new(&ctx, &topo, &ieee);
    let opts = GraphOptions {
        silence_phone: 1,
        silence_prob: 0.0f32.to_bits(),
        initial_silence_prob: 0.0f32.to_bits(),
        ..Default::default()
    };
    (tm, ctx, opts)
}

fn filled(rows: usize, cols: usize, x: f32) -> Matrix {
    Matrix { cols, rows: vec![vec![x.to_bits(); cols]; rows] }
}

fn place(pdfs: &[PdfId], p: PdfId) -> usize {
    pdfs.iter().position(|x| *x == p).unwrap()
}

fn pdfs_of(ctx: &ContextDependency, phone: PhoneId) -> Vec<PdfId> {
    (0..3).map(|c| ctx.compute(&[phone], c).unwrap()).collect()
}

#[test]
fn posteriors_are_unit_weight_per_frame() {
    let ali = Alignment {
        utt: "u".to_string(),
        tids: vec![3, 3, 7],
        words: vec![],
        prons: vec![],
        loglike: 0,
    };
    let post = alignment_to_posteriors(&ali);
    let one = 1.0f32.to_bits();
    assert_eq!(post, vec![(3, one), (3, one), (7, one)]);
}

#[test]
fn align_errors_say_what_is_wrong() {
    assert_eq!(
        AlignError::NoPath.to_string(),
        "no path through the graph, even with the retry beam"
    );
    assert_eq!(
        AlignError::TooShort { frames: 2 }.to_string(),
        "utterance has too few frames (2) to align"
    );
    assert_eq!(
        AlignError::MissingPdf { cols: 3, pdf: 9 }.to_string(),
        "scores matrix has 3 columns but the graph needs a column for pdf 9"
    );
}

#[test]
fn produces_exactly_num_frames() {
    let (tm, ctx, gopts) = setup();
    let g = build_graph(&plain(&[&[2, 3]]), &tm, &ctx, &gopts, &ieee);
    let mut rng = Random::seeded(7);
    for frames in [6usize, 10, 25, 100] {
        let ali = equal_align(&g, &tm, frames, &mut rng, &ieee)
            .unwrap_or_else(|| panic!("equal_align failed for {frames} frames"));
        assert_eq!(ali.tids.len(), frames);
    }
}

#[test]
fn output_splits_into_the_right_phones() {
    let (tm, ctx, gopts) = setup();
    let g = build_graph(&plain(&[&[2, 3]]), &tm, &ctx, &gopts, &ieee);
    let mut rng = Random::seeded(11);
    let ali = equal_align(&g, &tm, 20, &mut rng, &ieee).unwrap();
    let runs = split_to_phones(&tm, &ali.tids);
    assert_eq!(runs.len(), 2);
    assert_eq!(tm.transition_id_to_phone(runs[0][0]), 2);
    assert_eq!(tm.transition_id_to_phone(runs[1][0]), 3);
}

#[test]
fn lengths_are_roughly_equal() {
    let (tm, ctx, gopts) = setup();
    let g = build_graph(&plain(&[&[2, 3]]), &tm, &ctx, &gopts, &ieee);
    let mut rng = Random::seeded(3);
    let ali = equal_align(&g, &tm, 60, &mut rng, &ieee).unwrap();
    let runs = split_to_phones(&tm, &ali.tids);
    assert_eq!(runs.len(), 2);
    assert_eq!(runs.iter().map(|r| r.len()).sum::<usize>(), 60);
    for r in &runs {
        assert!(r.len() >= 2, "phone run length {} is too short", r.len());
    }
}

#[test]
fn too_few_frames_returns_none() {
    let (tm, ctx, gopts) = setup();
    let g = build_graph(&plain(&[&[2, 3]]), &tm, &ctx, &gopts, &ieee);
    let mut rng = Random::seeded(5);
    assert!(equal_align(&g, &tm, 1, &mut rng, &ieee).is_none());
}

#[test]
fn deterministic_for_a_fixed_seed() {
    let (tm, ctx, gopts) = setup();
    let g = build_graph(&plain(&[&[2, 3]]), &tm, &ctx, &gopts, &ieee);
    let a = equal_align(&g, &tm, 15, &mut Random::seeded(42), &ieee).unwrap();
    let b = equal_align(&g, &tm, 15, &mut Random::seeded(42), &ieee).unwrap();
    assert_eq!(a.tids, b.tids);
}

#[test]
fn word_labels_present() {
    let (tm, ctx, gopts) = setup();
    let g = build_graph(&plain(&[&[2], &[3]]), &tm, &ctx, &gopts, &ieee);
    let mut rng = Random::seeded(9);
    let ali = equal_align(&g, &tm, 18, &mut rng, &ieee).unwrap();
    assert_eq!(ali.words, vec![0, 1]);
}

#[test]
fn draws_are_below_their_bound() {
    let mut r = Random::seeded(1);
    let v: Vec<usize> = (1..200).map(|n| r.draw(n)).collect();
    assert!(v.iter().enumerate().all(|(i, x)| *x <= i));
    assert!(v.iter().any(|x| *x > 0));
    let mut l = Listed::new(vec![5, 2]);
    assert_eq!(l.draw(3), 0);
    assert_eq!(l.draw(3), 2);
    assert_eq!(l.draw(9), 0);
    let (mut p, mut q) = (Random::seeded(77), Random::seeded(77));
    assert!((1..200).all(|n| p.draw(n) == q.draw(n)));
}

#[test]
fn aligns_a_single_phone() {
    let (tm, ctx, gopts) = setup();
    let g = build_graph(&plain(&[&[2]]), &tm, &ctx, &gopts, &ieee);
    let pdfs = graph_pdfs(&g, &tm);
    let frames = 6;
    let scores = filled(frames, pdfs.len(), 0.0);
    let col = |p: PdfId| place(&pdfs, p);
    let opts = AlignOptions::default();
    let ali = align(&g, &tm, &scores, &col, &opts, &ieee).expect("alignment should succeed");
    assert_eq!(ali.tids.len(), frames);
    assert!(ali.tids.iter().all(|&t| tm.transition_id_to_phone(t) == 2));
    assert_eq!(ali.words, vec![0]);
    assert!(f32::from_bits(ali.loglike).is_finite());
}

#[test]
fn alignment_splits_into_the_expected_phones() {
    let (tm, ctx, gopts) = setup();
    let g = build_graph(&plain(&[&[2, 3]]), &tm, &ctx, &gopts, &ieee);
    let pdfs = graph_pdfs(&g, &tm);
    let frames = 12;
    let scores = filled(frames, pdfs.len(), 0.0);
    let col = |p: PdfId| place(&pdfs, p);
    let ali = align(&g, &tm, &scores, &col, &AlignOptions::default(), &ieee).unwrap();
    let runs = split_to_phones(&tm, &ali.tids);
    assert_eq!(runs.len(), 2);
    assert_eq!(tm.transition_id_to_phone(runs[0][0]), 2);
    assert_eq!(tm.transition_id_to_phone(runs[1][0]), 3);
    assert_eq!(runs.iter().map(|r| r.len()).sum::<usize>(), frames);
}

#[test]
fn acoustic_scores_steer_the_boundary() {
    let (tm, ctx, gopts) = setup();
    let g = build_graph(&plain(&[&[2, 3]]), &tm, &ctx, &gopts, &ieee);
    let pdfs = graph_pdfs(&g, &tm);
    let col = |p: PdfId| place(&pdfs, p);
    let frames = 12;
    let p2 = pdfs_of(&ctx, 2);
    let p3 = pdfs_of(&ctx, 3);
    let mut scores = filled(frames, pdfs.len(), -30.0);
    for t in 0..frames {
        let set = if t < 9 { &p2 } else { &p3 };
        for p in set {
            scores.rows[t][col(*p)] = 0.0f32.to_bits();
        }
    }
    let ali = align(&g, &tm, &scores, &col, &AlignOptions::default(), &ieee).unwrap();
    let runs = split_to_phones(&tm, &ali.tids);
    assert_eq!(runs.len(), 2);
    assert_eq!(runs[0].len(), 9, "boundary should follow the acoustics");
    assert_eq!(runs[1].len(), 3);
}

#[test]
fn too_few_frames_fails() {
    let (tm, ctx, gopts) = setup();
    let g = build_graph(&plain(&[&[2, 3]]), &tm, &ctx, &gopts, &ieee);
    let pdfs = graph_pdfs(&g, &tm);
    let col = |p: PdfId| place(&pdfs, p);
    let scores = filled(1, pdfs.len(), 0.0);
    assert!(align(&g, &tm, &scores, &col, &AlignOptions::default(), &ieee).is_none());
}

#[test]
fn narrow_beam_recovered_by_retry() {
    let (tm, ctx, gopts) = setup();
    let g = build_graph(&plain(&[&[2, 3]]), &tm, &ctx, &gopts, &ieee);
    let pdfs = graph_pdfs(&g, &tm);
    let col = |p: PdfId| place(&pdfs, p);
    let frames = 8;
    let scores = filled(frames, pdfs.len(), 0.0);
    let opts = AlignOptions {
        beam: 0.001f32.to_bits(),
        retry_beam: 100.0f32.to_bits(),
        ..Default::default()
    };
    let ali = align(&g, &tm, &scores, &col, &opts, &ieee).expect("retry beam should recover");
    assert_eq!(ali.tids.len(), frames);
}

#[test]
fn max_active_limits_the_search_without_breaking_it() {
    let (tm, ctx, gopts) = setup();
    let g = build_graph(&plain(&[&[2, 3]]), &tm, &ctx, &gopts, &ieee);
    let pdfs = graph_pdfs(&g, &tm);
    let col = |p: PdfId| place(&pdfs, p);
    let scores = filled(10, pdfs.len(), 0.0);
    let opts = AlignOptions { max_active: 8, min_active: 1, ..Default::default() };
    let ali = align(&g, &tm, &scores, &col, &opts, &ieee).expect("should still align");
    assert_eq!(ali.tids.len(), 10);
}

#[test]
fn two_word_round_trip_through_both_aligners() {
    let (tm, ctx, gopts) = setup();
    let g = build_graph(&plain(&[&[2], &[3]]), &tm, &ctx, &gopts, &ieee);
    let pdfs = graph_pdfs(&g, &tm);
    let col = |p: PdfId| place(&pdfs, p);
    let frames = 18;
    let p2 = pdfs_of(&ctx, 2);
    let p3 = pdfs_of(&ctx, 3);
    let mut scores = filled(frames, pdfs.len(), -20.0);
    for t in 0..frames {
        for p in if t < frames / 2 { &p2 } else { &p3 } {
            scores.rows[t][col(*p)] = 0.0f32.to_bits();
        }
    }
    let viterbi = align(&g, &tm, &scores, &col, &AlignOptions::default(), &ieee)
        .expect("viterbi alignment should succeed");
    assert_eq!(viterbi.tids.len(), frames);
    assert_eq!(viterbi.words, vec![0, 1]);

    let mut rng = Random::seeded(2024);
    let equal =
        equal_align(&g, &tm, frames, &mut rng, &ieee).expect("equal_align should succeed");
    assert_eq!(equal.tids.len(), frames);

    for (name, ali) in [("viterbi", &viterbi), ("equal", &equal)] {
        let (runs, was_ok) = split_to_phones_checked(&tm, &ali.tids);
        assert!(was_ok, "{name}: split_to_phones reported an inconsistency");
        let phones: Vec<PhoneId> = runs.iter().map(|r| tm.transition_id_to_phone(r[0])).collect();
        assert_eq!(phones, vec![2, 3], "{name}: unexpected phone sequence");
        assert_eq!(runs.iter().map(|r| r.len()).sum::<usize>(), frames);
    }
    let runs = split_to_phones(&tm, &viterbi.tids);
    assert_eq!(runs[0].len(), frames / 2);
}

#[test]
fn word_labels_recovered_in_order() {
    let (tm, ctx, gopts) = setup();
    let g = build_graph(&plain(&[&[2], &[3]]), &tm, &ctx, &gopts, &ieee);
    let pdfs = graph_pdfs(&g, &tm);
    let col = |p: PdfId| place(&pdfs, p);
    let scores = filled(10, pdfs.len(), 0.0);
    let ali = align(&g, &tm, &scores, &col, &AlignOptions::default(), &ieee).unwrap();
    assert_eq!(ali.words, vec![0, 1]);
}

#[test]
fn pronunciation_alternative_is_recovered() {
    let (tm, ctx, gopts) = setup();
    let words = vec![vec![Pronunciation::plain(vec![2]), Pronunciation::plain(vec![3])]];
    let g = build_graph(&words, &tm, &ctx, &gopts, &ieee);
    let pdfs = graph_pdfs(&g, &tm);
    let col = |p: PdfId| place(&pdfs, p);
    let p3 = pdfs_of(&ctx, 3);
    let frames = 12;
    let mut scores = filled(frames, pdfs.len(), -50.0);
    for t in 0..frames {
        for p in &p3 {
            scores.rows[t][col(*p)] = 0.0f32.to_bits();
        }
    }
    let ali = align(&g, &tm, &scores, &col, &AlignOptions::default(), &ieee).unwrap();
    assert_eq!(ali.words, vec![0]);
    assert_eq!(ali.prons, vec![1]);
    let runs = split_to_phones(&tm, &ali.tids);
    let phones: Vec<PhoneId> = runs.iter().map(|r| tm.transition_id_to_phone(r[0])).collect();
    assert_eq!(phones, vec![3]);
}

fn states(v: Vec<Vec<Arc>>) -> Graph {
    let mut g = Graph::default();
    g.states = v.into_iter().map(|arcs| GraphState { arcs }).collect();
    g
}

#[test]
fn recombination_preserves_ties_and_epsilon_word_labels() {
    let (tm, _, _) = setup();
    let arc = |tid, next, word, pron| Arc { tid, next, word, pron, cost: 0, lm: 0 };
    let mut graph = states(vec![
        vec![arc(1, 1, 7, 0), arc(1, 1, 7, 1)],
        vec![arc(0, 2, NO_WORD, NO_PRON), arc(0, 3, NO_WORD, NO_PRON)],
        vec![arc(0, 4, 8, 0)],
        vec![arc(0, 4, 8, 1)],
        vec![],
    ]);
    graph.finals.push((4, 0));
    let result = align(
        &graph,
        &tm,
        &filled(1, 1, 0.0),
        &|_: PdfId| 0usize,
        &AlignOptions::default(),
        &ieee,
    )
    .unwrap();
    assert_eq!(result.tids, vec![1]);
    assert_eq!(result.words, vec![7, 8]);
    assert_eq!(result.prons, vec![0, 1]);
    assert_eq!(result.loglike, (-0.0f32).to_bits());
}

#[test]
fn epsilon_replacement_does_not_rewrite_existing_descendants() {
    let (tm, _, _) = setup();
    let arc = |next: u32, cost: f32, word: u32| Arc {
        tid: 0,
        next,
        word,
        pron: 0,
        cost: cost.to_bits(),
        lm: cost.to_bits(),
    };
    let mut graph = states(vec![
        vec![arc(1, 0.0, 1), arc(2, 5.0, 2)],
        vec![arc(2, 0.0, 3)],
        vec![arc(3, 0.0, 4)],
        vec![],
    ]);
    graph.finals.push((3, 0));
    let opts = AlignOptions::default();
    let prepared = PreparedGraph::new(&graph, &tm, &|_: PdfId| 0usize);
    let mut decoder = Decoder::new(&prepared, &opts, opts.beam);
    let start = decoder.arena.push(Token {
        prev: usize::MAX,
        arc: arc(0, 0.0, NO_WORD),
        ac_cost: 0,
    });
    decoder.cur.slot[0] = start;
    decoder.cur.cost[0] = 0.0f64.to_bits();
    decoder.cur.states.push(0);
    decoder.process_nonemitting(f64::INFINITY.to_bits(), &ieee);
    let old_descendant = decoder
        .arena
        .toks
        .iter()
        .find(|token| token.prev != usize::MAX && token.arc.next == 3)
        .unwrap();
    let old_parent = decoder.arena.toks[old_descendant.prev];
    assert_eq!(old_parent.arc.word, 2);
    let current = decoder.arena.toks[decoder.cur.slot[3]];
    let current_parent = decoder.arena.toks[current.prev];
    assert_eq!(current_parent.arc.word, 3);
    assert_eq!(f64::from_bits(decoder.cur.cost[3]), 0.0);
}

#[test]
fn adaptive_cutoff_matches_sorted_frontiers() {
    let (tm, _, _) = setup();
    let graph = states(vec![vec![]; 100]);
    let prepared = PreparedGraph::new(&graph, &tm, &|_: PdfId| 0usize);
    for n in [0, 1, 8, 20, 21, 40, 100] {
        for min in [0, 1, 20, 99, 100] {
            for max in [0, 1, 20, 100, usize::MAX] {
                for beam in [0.0f32, 0.5, 10.0, 40.0] {
                    let opts = AlignOptions {
                        min_active: min,
                        max_active: max,
                        beam: beam.to_bits(),
                        ..Default::default()
                    };
                    let mut d = Decoder::new(&prepared, &opts, beam.to_bits());
                    let mut sorted: Vec<f64> = Vec::new();
                    for s in 0..n {
                        let cost = ((s * 17 + n) % 31) as f64;
                        d.cur.states.push(s as u32);
                        d.cur.cost[s] = cost.to_bits();
                        sorted.push(cost);
                    }
                    sorted.sort_by(f64::total_cmp);
                    let best = sorted.first().copied().unwrap_or(f64::INFINITY);
                    let ordinary = best + beam as f64;
                    let max_cutoff = sorted.get(max).copied().unwrap_or(f64::INFINITY);
                    let min_cutoff = if n > min {
                        if min == 0 {
                            best
                        } else if min < n.min(max) {
                            sorted[min]
                        } else {
                            f64::INFINITY
                        }
                    } else {
                        f64::INFINITY
                    };
                    let delta = f32::from_bits(opts.beam_delta);
                    let expected = if max == usize::MAX && min == 0 {
                        (ordinary, beam)
                    } else if max_cutoff < ordinary {
                        (max_cutoff, (max_cutoff - best) as f32 + delta)
                    } else if min_cutoff > ordinary {
                        (min_cutoff, (min_cutoff - best) as f32 + delta)
                    } else {
                        (ordinary, beam)
                    };
                    let got = d.get_cutoff(&ieee);
                    assert_eq!(got.0, expected.0.to_bits(), "n={n} min={min} max={max} beam={beam}");
                    assert_eq!(got.1, expected.1.to_bits(), "n={n} min={min} max={max} beam={beam}");
                }
            }
        }
    }
}

/// Phones whose first state skips to every later state, so that one frame can be enough.
fn skipping_setup() -> (TransitionModel, ContextDependency, GraphOptions) {
    let state = |class: i32, steps: &[(usize, f32)]| {
        HmmState::new(class, steps.iter().map(|(d, p)| (*d, p.to_bits())).collect())
    };
    let third = 1.0f32 / 3.0;
    let mut topo = HmmTopology::mfa_default(&[1], &[2, 3], 5, 3, &ieee);
    topo.entries[1].states = vec![
        state(0, &[(1, third), (2, third), (3, third)]),
        state(1, &[(1, 0.5), (2, 0.5)]),
        state(2, &[(3, 1.0)]),
        state(NO_PDF, &[]),
    ];
    let sets: Vec<Vec<PhoneId>> = vec![vec![1], vec![2], vec![3]];
    let t = topo.clone();
    let ctx = ContextDependency::monophone_shared(&sets, &move |p: PhoneId| t.num_pdf_classes(p));
    let tm = TransitionModel::new(&ctx, &topo, &ieee);
    let (_, _, opts) = setup();
    (tm, ctx, opts)
}

#[test]
fn a_phone_may_last_one_frame() {
    let (tm, ctx, gopts) = skipping_setup();
    let g = build_graph(&plain(&[&[2], &[3]]), &tm, &ctx, &gopts, &ieee);
    let mut scores = filled(6, tm.num_pdfs(), -50.0);
    for p in pdfs_of(&ctx, 2) {
        scores.rows[0][p as usize] = 0.0f32.to_bits();
    }
    for row in scores.rows.iter_mut().skip(1) {
        for p in pdfs_of(&ctx, 3) {
            row[p as usize] = 0.0f32.to_bits();
        }
    }
    let opts = AlignOptions { acoustic_scale: 1.0f32.to_bits(), ..Default::default() };
    let ali = align(&g, &tm, &scores, &|p: PdfId| p as usize, &opts, &ieee).expect("align failed");
    let phones: Vec<PhoneId> = ali.tids.iter().map(|t| tm.transition_id_to_phone(*t)).collect();
    assert_eq!(phones, vec![2, 3, 3, 3, 3, 3]);
    let runs: Vec<usize> = split_to_phones(&tm, &ali.tids).iter().map(|r| r.len()).collect();
    assert_eq!(runs, vec![1, 5]);
}
