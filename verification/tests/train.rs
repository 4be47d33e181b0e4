use viter::audio::Audio;
use viter::float::FloatOp;
use viter::hmm::construct::GraphOptions;
use viter::io::names::Counted;
use viter::train::{
    configure, grid_duration, keep_rounds, stage_list, top_unknown, utterance_of, CorpusArgs,
    StageSpec, Stages, TrainArgs, TrainConfig,
};
use viter::types::Utterance;

fn single(x: f32) -> u64 {
    x.to_bits() as u64
}

fn ieee(op: FloatOp) -> u64 {
    let s = f32::from_bits;
    let d = f64::from_bits;
    match op {
        FloatOp::Add(a, b) => single(s(a) + s(b)),
        FloatOp::Sub(a, b) => single(s(a) - s(b)),
        FloatOp::Mul(a, b) => single(s(a) * s(b)),
        FloatOp::Div(a, b) => single(s(a) / s(b)),
        FloatOp::Ln(a) => single(s(a).ln()),
        FloatOp::Exp(a) => single(s(a).exp()),
        FloatOp::Pow(a, b) => single(s(a).powf(s(b))),
        FloatOp::Sqrt(a) => single(s(a).sqrt()),
        FloatOp::Round(a) => single(s(a).round()),
        FloatOp::Sin(a) => single(s(a).sin()),
        FloatOp::Cos(a) => single(s(a).cos()),
        FloatOp::Trunc(a) => s(a) as u64,
        FloatOp::SqrtWide(a) => d(a).sqrt().to_bits(),
        FloatOp::SinWide(a) => d(a).sin().to_bits(),
        FloatOp::CosWide(a) => d(a).cos().to_bits(),
        FloatOp::PowWide(a, b) => d(a).powf(d(b)).to_bits(),
        FloatOp::RoundWide(a) => d(a).round().to_bits(),
        FloatOp::TruncWide(a) => d(a) as u64,
        FloatOp::TruncSigned(a) => d(a) as i64 as u64,
        FloatOp::Count(n) => single(n as f32),
        FloatOp::Widen(a) => (s(a) as f64).to_bits(),
        FloatOp::Narrow(a) => single(d(a) as f32),
        FloatOp::AddWide(a, b) => (d(a) + d(b)).to_bits(),
        FloatOp::SubWide(a, b) => (d(a) - d(b)).to_bits(),
        FloatOp::MulWide(a, b) => (d(a) * d(b)).to_bits(),
        FloatOp::DivWide(a, b) => (d(a) / d(b)).to_bits(),
        FloatOp::LnWide(a) => d(a).ln().to_bits(),
        FloatOp::ExpWide(a) => d(a).exp().to_bits(),
        FloatOp::CountWide(n) => (n as f64).to_bits(),
    }
}

fn args() -> TrainArgs {
    TrainArgs {
        corpus: "corpus".to_string(),
        out: "model.viter".to_string(),
        out_textgrids: None,
        work_dir: None,
        corpus_args: CorpusArgs { dict: None, no_position_dependent: false },
        no_lda: false,
        no_sat: false,
        no_tri: false,
        sat_rounds: None,
        no_pron_probs: false,
        no_subset: false,
        seed: 0,
        cpu: false,
        log: None,
    }
}

fn schedule() -> Vec<StageSpec> {
    vec![
        StageSpec::Mono,
        StageSpec::Tri,
        StageSpec::Lda,
        StageSpec::Sat,
        StageSpec::PronProbs,
        StageSpec::Sat,
        StageSpec::PronProbs,
        StageSpec::Sat,
    ]
}

fn base() -> TrainConfig {
    TrainConfig {
        seed: 7,
        subset: false,
        position_dependent: false,
        stages: Stages { tri: true, lda: true, sat: true, pron_probs: true },
        schedule: schedule(),
        graph: GraphOptions { silence_phone: 4, ..Default::default() },
    }
}

#[test]
fn flags_turn_stages_off() {
    let all = configure(&args(), base());
    assert_eq!(all.stages, Stages { tri: true, lda: true, sat: true, pron_probs: true });
    assert!(all.subset && all.position_dependent);
    assert!(all.graph.position_dependent);
    assert_eq!(all.graph.silence_phone, 4);
    let plain = CorpusArgs { dict: None, no_position_dependent: true };
    let c = configure(&TrainArgs { corpus_args: plain, ..args() }, base());
    assert!(!c.position_dependent && !c.graph.position_dependent);
    assert_eq!(c.graph.silence_phone, 4);
    assert_eq!(all.seed, 0);
    assert_eq!(all.schedule, schedule());
    let c = configure(&TrainArgs { no_tri: true, ..args() }, base());
    assert_eq!(c.stages, Stages { tri: false, lda: false, sat: false, pron_probs: true });
    let c = configure(&TrainArgs { no_lda: true, no_pron_probs: true, ..args() }, base());
    assert_eq!(c.stages, Stages { tri: true, lda: false, sat: true, pron_probs: false });
    let c = configure(&TrainArgs { no_sat: true, no_subset: true, seed: 3, ..args() }, base());
    assert_eq!(c.stages, Stages { tri: true, lda: true, sat: false, pron_probs: true });
    assert!(!c.subset);
    assert_eq!(c.seed, 3);
}

#[test]
fn rounds_limit_the_schedule() {
    let s = schedule();
    assert_eq!(keep_rounds(&s, 4), s);
    assert_eq!(keep_rounds(&s, 3), s);
    assert_eq!(keep_rounds(&s, 2), s[..6].to_vec());
    assert_eq!(keep_rounds(&s, 0), s[..3].to_vec());
    let c = configure(&TrainArgs { sat_rounds: Some(1), ..args() }, base());
    assert_eq!(c.schedule, s[..4].to_vec());
}

#[test]
fn stages_are_listed_as_a_chain() {
    let keys = vec!["mono".to_string(), "tri".to_string(), "sat".to_string()];
    assert_eq!(stage_list(&keys), "mono -> tri -> sat");
    assert_eq!(stage_list(&vec![]), "");
}

#[test]
fn frequent_unknown_words_come_first() {
    let v: Vec<Counted> = (0..12)
        .map(|i| Counted { name: format!("w{:02}", i), count: (i * 5) % 7 })
        .collect();
    let top = top_unknown(&v);
    assert_eq!(top.len(), 10);
    let mut want: Vec<(usize, String)> = v.iter().map(|c| (c.count, c.name.clone())).collect();
    want.sort_by(|a, b| b.0.cmp(&a.0).then_with(|| a.1.cmp(&b.1)));
    for (t, w) in top.iter().zip(want.iter()) {
        assert_eq!((t.count, &t.name), (w.0, &w.1));
    }
}

#[test]
fn equally_frequent_words_come_by_name() {
    let v: Vec<Counted> = ["b", "c", "a", "d"]
        .iter()
        .map(|n| Counted { name: n.to_string(), count: if *n == "d" { 2 } else { 1 } })
        .collect();
    let names: Vec<String> = top_unknown(&v).iter().map(|c| c.name.clone()).collect();
    assert_eq!(names, ["d", "a", "b", "c"]);
}

fn utt(id: &str) -> Utterance {
    Utterance {
        id: id.to_string(),
        speaker: String::new(),
        audio: String::new(),
        words: vec![],
        prons: vec![],
        text: String::new(),
    }
}

#[test]
fn alignments_find_their_utterance() {
    let v = vec![utt("a"), utt("b"), utt("a")];
    assert_eq!(utterance_of(&v, "a"), Some(2));
    assert_eq!(utterance_of(&v, "b"), Some(1));
    assert_eq!(utterance_of(&v, "c"), None);
}

#[test]
fn grids_are_as_long_as_their_audio() {
    let a = Audio { samples: vec![0; 3], sample_rate: 2 };
    let two = 2.0f32.to_bits();
    assert_eq!(f64::from_bits(grid_duration(Some(&a), two, &ieee)), 1.5);
    assert_eq!(f64::from_bits(grid_duration(None, two, &ieee)), 2.0);
    let none = Audio { samples: vec![0; 3], sample_rate: 0 };
    assert_eq!(f64::from_bits(grid_duration(Some(&none), two, &ieee)), 2.0);
}
