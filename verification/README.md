# viter

Forced alignment: which phone and which word is spoken when, given a recording and its transcript.
The library holds the Gaussian-mixture recipe of the Montreal Forced Aligner, written in Verus: every
function states what it computes, and the statements are proved.

## Layout

- `src/float.rs`: numbers. Floating-point values are bit patterns. Comparisons are computed here;
  arithmetic is asked of a function that the caller hands in, and contracts are exact in what that
  function answers.
- `src/feat`: MFCC features, deltas, splicing, normalisation.
- `src/hmm`: topologies, context dependency, transition models, decoding graphs, alignments as
  intervals.
- `src/gmm`: diagonal mixtures, their statistics, re-estimation, splitting and merging.
- `src/align`: beam-pruned Viterbi alignment and flat-start alignment.
- `src/device`: how scoring and statistics are laid out in batches.
- `src/kaldi_io`: Kaldi binary files and the import of MFA models.
- `src/io`: dictionaries, corpora, TextGrid and CTM files.
- `src/model.rs`, `src/audio.rs`, `src/train.rs`: model files, waveforms, and the setup of a training
  run.
- `tests`: the tests. `app`: the `viter` command, which reads and writes files and supplies the
  arithmetic.

Laws that relate several functions are public proof functions beside the functions they speak of; the
TextGrid round trips are in `src/io/gridlaws.rs` and `src/io/gridplain.rs`, and where decoding graphs
lead in `src/hmm/endings.rs`.
