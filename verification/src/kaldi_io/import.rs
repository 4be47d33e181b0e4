//! Taking over a Montreal Forced Aligner model.
//!
//! Such a model is a directory or an archive of Kaldi files: `final.mdl` holds the transition model
//! and the mixtures, `final.alimdl` the speaker-independent ones, `tree` the phonetic decision tree,
//! `lda.mat` a transform, `phones.txt` the phone symbols, and `meta.json` the settings.
//!
//! The transition ids of the result are this library's own: its transition model is built from the
//! tree and the topology, and takes the stored probabilities over by tuple.

use vstd::prelude::*;
use vstd::slice::slice_subrange;
use vstd::string::StringExecFns;

use crate::feat::options::{default_mfcc, DeltaOptions, MfccOptions};
use crate::float::{eval, eval_wide, is_evaluator, value, wide_value, FloatOp, ONE};
use crate::gmm::am::{dim_of, gauss_count, AmDiagGmm};
use crate::gmm::diag::GmmView;
use crate::gmm::matrix::{unflattened, Matrix, MatrixView};
use crate::hmm::construct::GraphOptions;
use crate::hmm::context::ContextDependency;
use crate::hmm::graph::{HALF, TENTH};
use crate::hmm::topology::{covers, states_of};
use crate::hmm::transition::{
    buildable, id_count, initial_log_probs, leaving_log_probs, listing, model_tuples, pdfs_of,
    placed_probs, probs_fault, probs_message, ModelView, TransitionModel, Tuple, TupleLogProbs,
};
use crate::kaldi_io::objects::{
    am_diag_gmm_at, context_dependency_at, read_am_diag_gmm, read_context_dependency,
    read_matrix_file, read_transition_model, transition_model_at, KaldiTransitionModel, StoredModel,
};
use crate::kaldi_io::read::{
    header_fault, matrix_at, trouble_message, KaldiReadError, KaldiReader, Parsed, Trouble,
};
use crate::kaldi_io::settings::{
    find_count, find_error, find_flag, find_number, find_shown, find_text, json_count, json_error,
    json_flag, json_number, json_shown, json_text, optional_text,
};
use crate::model::{AcousticModel, FORMAT_VERSION};
use crate::scan::{
    find_last, last_in, lines_of, number_in, parse_number, split_lines, trim, trim_end, trimmed,
    trimmed_end, views, SPACES,
};
use crate::text::{
    append_decimal, chars_of, decimal, decode_utf8, quote, quoted, string_of, utf8_message,
};
use crate::tree::Tree;
use crate::types::{is_table, number_of, with_symbol, PhoneId, SymbolTable, EPSILON};

verus! {

/// Why a model was not taken over.
#[derive(Debug)]
#[allow(inconsistent_fields)]
pub enum ImportError {
    /// A file could not be read.
    Io { path: String, message: String },
    /// The archive could not be read.
    Zip { path: String, message: String },
    /// A file is not there.
    Missing { path: String, missing: String },
    /// A Kaldi file could not be read.
    Parse { file: String, source: KaldiReadError },
    /// A text file could not be read.
    BadContent { file: String, msg: String },
    /// The files do not fit together.
    Inconsistent(String),
}

/// An [`ImportError`] with its texts as sequences.
#[verifier::ext_equal]
#[allow(inconsistent_fields)]
pub enum ImportFault {
    Io { path: Seq<char>, message: Seq<char> },
    Zip { path: Seq<char>, message: Seq<char> },
    Missing { path: Seq<char>, missing: Seq<char> },
    Parse { file: Seq<char>, source: Trouble },
    BadContent { file: Seq<char>, msg: Seq<char> },
    Inconsistent(Seq<char>),
}

impl View for ImportError {
    type V = ImportFault;

    open spec fn view(&self) -> ImportFault {
        match *self {
            ImportError::Io { path, message } => ImportFault::Io { path: path@, message: message@ },
            ImportError::Zip { path, message } => ImportFault::Zip {
                path: path@,
                message: message@,
            },
            ImportError::Missing { path, missing } => ImportFault::Missing {
                path: path@,
                missing: missing@,
            },
            ImportError::Parse { file, source } => ImportFault::Parse {
                file: file@,
                source: source@,
            },
            ImportError::BadContent { file, msg } => ImportFault::BadContent {
                file: file@,
                msg: msg@,
            },
            ImportError::Inconsistent(msg) => ImportFault::Inconsistent(msg@),
        }
    }
}

/// The message of a fault.
pub open spec fn import_message(e: ImportFault) -> Seq<char> {
    match e {
        ImportFault::Io { path, message } => "i/o error on "@ + path + ": "@ + message,
        ImportFault::Zip { path, message } => path + " is not a readable zip archive: "@ + message,
        ImportFault::Missing { path, missing } => path + " does not look like an MFA model: no "@
            + missing + " inside it"@,
        ImportFault::Parse { file, source } => "failed to parse "@ + file + ": "@ + trouble_message(
            source,
        ),
        ImportFault::BadContent { file, msg } => "failed to parse "@ + file + ": "@ + msg,
        ImportFault::Inconsistent(msg) =>
            "the imported tree and topology do not agree with final.mdl: "@ + msg,
    }
}

impl ImportError {
    /// The message for the user.
    pub fn to_string(&self) -> (r: String)
        ensures
            r@ == import_message(self@),
    {
        let mut out = String::new();
        match self {
            ImportError::Io { path, message } => {
                out.append("i/o error on ");
                out.append(path.as_str());
                out.append(": ");
                out.append(message.as_str());
            },
            ImportError::Zip { path, message } => {
                out.append(path.as_str());
                out.append(" is not a readable zip archive: ");
                out.append(message.as_str());
            },
            ImportError::Missing { path, missing } => {
                out.append(path.as_str());
                out.append(" does not look like an MFA model: no ");
                out.append(missing.as_str());
                out.append(" inside it");
            },
            ImportError::Parse { file, source } => {
                out.append("failed to parse ");
                out.append(file.as_str());
                out.append(": ");
                out.append(source.to_string().as_str());
            },
            ImportError::BadContent { file, msg } => {
                out.append("failed to parse ");
                out.append(file.as_str());
                out.append(": ");
                out.append(msg.as_str());
            },
            ImportError::Inconsistent(msg) => {
                out.append("the imported tree and topology do not agree with final.mdl: ");
                out.append(msg.as_str());
            },
        }
        assert(out@ =~= import_message(self@));
        out
    }
}

/// A line starts its message with its number, counted from 1.
pub open spec fn line_label(i: int) -> Seq<char> {
    "line "@ + decimal((i + 1) as nat) + ": "@
}

/// The symbols that the lines from `i` on add to a table. A line is a symbol and its number, with
/// white space between them; empty lines do not count. The number has to be the one that the table
/// gives to the symbol.
pub open spec fn symbols_from(lines: Seq<Seq<char>>, i: int, table: Seq<Seq<char>>) -> Result<
    Seq<Seq<char>>,
    Seq<char>,
>
    decreases lines.len() - i,
{
    if i >= lines.len() {
        Ok(table)
    } else {
        let line = trimmed_end(lines[i], SPACES@);
        let k = last_in(line, SPACES@);
        let sym = line.take(k);
        let id = line.skip(k + 1);
        let number = number_in(trimmed(id, SPACES@), u32::MAX as int);
        let after = with_symbol(table, trimmed(sym, SPACES@));
        let assigned = number_of(after, trimmed(sym, SPACES@))->0;
        if line.len() == 0 {
            symbols_from(lines, i + 1, table)
        } else if k < 0 {
            Err(line_label(i) + "expected \"<symbol> <id>\", got "@ + quoted(line))
        } else if number is None {
            Err(line_label(i) + quoted(id) + " is not an integer id"@)
        } else if assigned != number->0 {
            Err(
                line_label(i) + "symbol "@ + quoted(sym) + " has id "@ + decimal(number->0 as nat)
                    + ", but the table is at "@ + decimal(assigned as nat)
                    + "; phones.txt must list ids densely from 0"@,
            )
        } else {
            symbols_from(lines, i + 1, after)
        }
    }
}

/// The symbol table of a file.
pub open spec fn symbols_in(bytes: Seq<u8>) -> Result<Seq<Seq<char>>, ImportFault> {
    if vstd::utf8::valid_utf8(bytes) {
        match symbols_from(lines_of(vstd::utf8::decode_utf8(bytes)), 0, seq![EPSILON@]) {
            Ok(table) => Ok(table),
            Err(msg) => Err(ImportFault::BadContent { file: "phones.txt"@, msg }),
        }
    } else {
        Err(ImportFault::BadContent { file: "phones.txt"@, msg: utf8_message(bytes) })
    }
}

fn label_line(i: usize) -> (r: String)
    requires
        i < usize::MAX,
    ensures
        r@ == line_label(i as int),
{
    let mut out = String::from_str("line ");
    append_decimal(&mut out, i as u64 + 1);
    out.append(": ");
    out
}

/// Read a symbol table from its lines.
#[verifier::loop_isolation(false)]
fn read_symbols(lines: &Vec<&[char]>) -> (r: Result<SymbolTable, String>)
    ensures
        match symbols_from(views(lines@), 0, seq![EPSILON@]) {
            Ok(table) => r matches Ok(x) && x@ == table && is_table(table),
            Err(msg) => r matches Err(x) && x@ == msg,
        },
{
    let ghost ls = views(lines@);
    let ghost want = symbols_from(ls, 0, seq![EPSILON@]);
    let spaces = chars_of(SPACES);
    let mut table = SymbolTable::new();
    let mut i: usize = 0;
    while i < lines.len()
        invariant
            i <= lines@.len(),
            is_table(table@),
            want == symbols_from(ls, i as int, table@),
        decreases lines.len() - i,
    {
        assert(ls[i as int] == lines@[i as int]@);
        let line = trim_end(lines[i], spaces.as_slice());
        if line.len() > 0 {
            let k: usize = match find_last(line, spaces.as_slice()) {
                Some(k) => k,
                None => {
                    let mut msg = label_line(i);
                    msg.append("expected \"<symbol> <id>\", got ");
                    msg.append(quote(string_of(line).as_str()).as_str());
                    return Err(msg);
                },
            };
            let n: usize = line.len();
            let sym = slice_subrange(line, 0, k);
            let id = slice_subrange(line, k + 1, n);
            assert(sym@ =~= line@.take(k as int));
            assert(id@ =~= line@.skip(k + 1));
            let number: u64 = match parse_number(trim(id, spaces.as_slice()), 0xffff_ffff) {
                Some(n) => n,
                None => {
                    let mut msg = label_line(i);
                    msg.append(quote(string_of(id).as_str()).as_str());
                    msg.append(" is not an integer id");
                    return Err(msg);
                },
            };
            let name = string_of(trim(sym, spaces.as_slice()));
            let ghost after = with_symbol(table@, name@);
            let assigned: u64 = match table.id(name.as_str()) {
                Some(n) => n as u64,
                None => table.len() as u64,
            };
            proof {
                if !table@.contains(name@) {
                    assert(after[table@.len() as int] == name@);
                    assert(after.contains(name@));
                }
                assert(assigned == number_of(after, name@)->0);
            }
            if assigned != number {
                let mut msg = label_line(i);
                msg.append("symbol ");
                msg.append(quote(string_of(sym).as_str()).as_str());
                msg.append(" has id ");
                append_decimal(&mut msg, number);
                msg.append(", but the table is at ");
                append_decimal(&mut msg, assigned);
                msg.append("; phones.txt must list ids densely from 0");
                return Err(msg);
            }
            let added: PhoneId = table.add(name.as_str());
        }
        i += 1;
    }
    Ok(table)
}

/// Read a symbol table: on every line a symbol and its number, which start at 0 and have no gap.
pub fn parse_symbol_table(bytes: &[u8]) -> (r: Result<SymbolTable, ImportError>)
    ensures
        match symbols_in(bytes@) {
            Ok(table) => r matches Ok(x) && x@ == table && is_table(table),
            Err(e) => r matches Err(x) && x@ == e,
        },
{
    let text = match decode_utf8(bytes) {
        Ok(text) => text,
        Err(msg) => {
            return Err(ImportError::BadContent { file: String::from_str("phones.txt"), msg });
        },
    };
    let cs = chars_of(text.as_str());
    let lines = split_lines(cs.as_slice());
    match read_symbols(&lines) {
        Ok(table) => Ok(table),
        Err(msg) => Err(ImportError::BadContent { file: String::from_str("phones.txt"), msg }),
    }
}

/// The stored log probabilities from tuple `i` on, by tuple. The ids of a tuple start at `tid`, and
/// there are as many as its HMM state has transitions.
pub open spec fn grouped_from(m: StoredModel, i: int, tid: int) -> Result<
    Seq<(Tuple, Seq<u32>)>,
    Seq<char>,
>
    decreases m.tuples.len() - i,
{
    if i < 0 || i >= m.tuples.len() {
        Ok(seq![])
    } else {
        let t = m.tuples[i];
        let states = states_of(m.topo, t.phone);
        let n = states[t.hmm_state as int].transitions.len();
        if !covers(m.topo, t.phone) {
            Err("phone "@ + decimal(t.phone as nat) + " has no topology entry"@)
        } else if t.hmm_state >= states.len() {
            Err("phone "@ + decimal(t.phone as nat) + " has no hmm-state "@ + decimal(
                t.hmm_state as nat,
            ))
        } else if tid + n > m.log_probs.len() {
            Err("final.mdl's <LogProbs> holds "@ + decimal(m.log_probs.len()) + " entries, too few for its "@
                + decimal(m.tuples.len()) + " tuples"@)
        } else {
            match grouped_from(m, i + 1, tid + n) {
                Ok(rest) => Ok(seq![(t, m.log_probs.subrange(tid, tid + n))] + rest),
                Err(msg) => Err(msg),
            }
        }
    }
}

/// The stored log probabilities by tuple.
#[verifier::loop_isolation(false)]
pub fn kaldi_log_probs_by_tuple(km: &KaldiTransitionModel) -> (r: Result<
    Vec<TupleLogProbs>,
    ImportError,
>)
    ensures
        match grouped_from(km@, 0, 1) {
            Ok(list) => r matches Ok(x) && listing(x@) == list,
            Err(msg) => r matches Err(x) && x@ == ImportFault::Inconsistent(msg),
        },
{
    let ghost m = km@;
    let ghost want = grouped_from(m, 0, 1);
    let total: usize = km.log_probs.len();
    let mut out: Vec<TupleLogProbs> = Vec::new();
    let mut tid: usize = 1;
    let mut i: usize = 0;
    proof {
        if grouped_from(m, 0, 1) is Ok {
            assert(listing(out@) + grouped_from(m, 0, 1)->Ok_0 =~= grouped_from(m, 0, 1)->Ok_0);
        }
    }
    while i < km.tuples.len()
        invariant
            i <= km.tuples@.len(),
            1 <= tid,
            tid == 1 || tid <= total,
            want == (match grouped_from(m, i as int, tid as int) {
                Ok(rest) => Ok(listing(out@) + rest),
                Err(msg) => Err(msg),
            }),
        decreases km.tuples.len() - i,
    {
        let tuple = km.tuples[i];
        let states = match km.topo.try_for_phone(tuple.phone) {
            Some(s) => s,
            None => {
                let mut msg = String::from_str("phone ");
                append_decimal(&mut msg, tuple.phone as u64);
                msg.append(" has no topology entry");
                return Err(ImportError::Inconsistent(msg));
            },
        };
        if tuple.hmm_state >= states.len() {
            let mut msg = String::from_str("phone ");
            append_decimal(&mut msg, tuple.phone as u64);
            msg.append(" has no hmm-state ");
            append_decimal(&mut msg, tuple.hmm_state as u64);
            return Err(ImportError::Inconsistent(msg));
        }
        assert(states_of(m.topo, tuple.phone)[tuple.hmm_state as int]
            == states@[tuple.hmm_state as int]@);
        let n: usize = states[tuple.hmm_state].transitions.len();
        if n > total || tid > total - n {
            let mut msg = String::from_str("final.mdl's <LogProbs> holds ");
            append_decimal(&mut msg, total as u64);
            msg.append(" entries, too few for its ");
            append_decimal(&mut msg, km.tuples.len() as u64);
            msg.append(" tuples");
            return Err(ImportError::Inconsistent(msg));
        }
        let mut log_probs: Vec<u32> = Vec::new();
        log_probs.extend_from_slice(slice_subrange(km.log_probs.as_slice(), tid, tid + n));
        assert(log_probs@ =~= m.log_probs.subrange(tid as int, tid + n));
        let ghost before = listing(out@);
        out.push(TupleLogProbs { tuple, log_probs });
        proof {
            assert(listing(out@) =~= before.push((tuple, log_probs@)));
            match grouped_from(m, i + 1, tid + n) {
                Ok(rest) => {
                    assert(before + (seq![(tuple, log_probs@)] + rest) =~= listing(out@) + rest);
                },
                Err(msg) => {},
            }
        }
        tid += n;
        i += 1;
    }
    assert(listing(out@) + Seq::<(Tuple, Seq<u32>)>::empty() =~= listing(out@));
    Ok(out)
}

/// A setting that is a number, in single precision.
pub open spec fn number_or<F: Fn(FloatOp) -> u64>(
    meta: Seq<u8>,
    place: Seq<char>,
    default: u32,
    f: F,
) -> u32 {
    match json_number(meta, place) {
        Some(v) => value(f, FloatOp::Narrow(v)),
        None => default,
    }
}

/// A setting that is a number, rounded towards zero into 32 bits.
pub open spec fn whole_or<F: Fn(FloatOp) -> u64>(
    meta: Seq<u8>,
    place: Seq<char>,
    default: u32,
    f: F,
) -> u32 {
    match json_number(meta, place) {
        Some(v) => if wide_value(f, FloatOp::TruncWide(v)) > u32::MAX {
            u32::MAX
        } else {
            wide_value(f, FloatOp::TruncWide(v)) as u32
        },
        None => default,
    }
}

/// A setting that is a choice.
pub open spec fn flag_or(meta: Seq<u8>, place: Seq<char>, default: bool) -> bool {
    match json_flag(meta, place) {
        Some(v) => v,
        None => default,
    }
}

/// A setting that is a text.
pub open spec fn text_or(meta: Seq<u8>, place: Seq<char>, default: Seq<char>) -> Seq<char> {
    match json_text(meta, place) {
        Some(v) => v,
        None => default,
    }
}

/// A setting that is a count.
pub open spec fn count_or(meta: Seq<u8>, place: Seq<char>, default: usize) -> usize {
    match json_count(meta, place) {
        Some(v) => v as usize,
        None => default,
    }
}

fn get_number_or<F: Fn(FloatOp) -> u64>(meta: &[u8], place: &str, default: u32, f: &F) -> (r: u32)
    requires
        is_evaluator(*f),
    ensures
        r == number_or(meta@, place@, default, *f),
{
    match find_number(meta, place) {
        Some(v) => eval(f, FloatOp::Narrow(v)),
        None => default,
    }
}

fn get_whole_or<F: Fn(FloatOp) -> u64>(meta: &[u8], place: &str, default: u32, f: &F) -> (r: u32)
    requires
        is_evaluator(*f),
    ensures
        r == whole_or(meta@, place@, default, *f),
{
    match find_number(meta, place) {
        Some(v) => {
            let n: u64 = eval_wide(f, FloatOp::TruncWide(v));
            if n > 0xffff_ffff {
                0xffff_ffff
            } else {
                n as u32
            }
        },
        None => default,
    }
}

fn get_flag_or(meta: &[u8], place: &str, default: bool) -> (r: bool)
    ensures
        r == flag_or(meta@, place@, default),
{
    match find_flag(meta, place) {
        Some(v) => v,
        None => default,
    }
}

fn get_text_or(meta: &[u8], place: &str, default: &str) -> (r: String)
    ensures
        r@ == text_or(meta@, place@, default@),
{
    match find_text(meta, place) {
        Some(v) => v,
        None => String::from_str(default),
    }
}

fn get_count_or(meta: &[u8], place: &str, default: usize) -> (r: usize)
    ensures
        r == count_or(meta@, place@, default),
{
    match find_count(meta, place) {
        Some(v) => v as usize,
        None => default,
    }
}

/// The feature settings of a model: those that its settings name, and the defaults otherwise.
pub open spec fn mfcc_settings<F: Fn(FloatOp) -> u64>(meta: Seq<u8>, f: F) -> MfccOptions {
    let o = default_mfcc();
    MfccOptions {
        sample_rate: whole_or(meta, "/features/sample_frequency"@, o.sample_rate, f),
        frame_length_ms: number_or(meta, "/features/frame_length"@, o.frame_length_ms, f),
        frame_shift_ms: number_or(meta, "/features/frame_shift"@, o.frame_shift_ms, f),
        dither: number_or(meta, "/features/dither"@, o.dither, f),
        preemph: number_or(meta, "/features/preemphasis_coefficient"@, o.preemph, f),
        snip_edges: flag_or(meta, "/features/snip_edges"@, o.snip_edges),
        num_mel_bins: whole_or(meta, "/features/num_mel_bins"@, o.num_mel_bins, f),
        low_freq: number_or(meta, "/features/low_frequency"@, o.low_freq, f),
        high_freq: number_or(meta, "/features/high_frequency"@, o.high_freq, f),
        num_ceps: whole_or(meta, "/features/num_coefficients"@, o.num_ceps, f),
        use_energy: flag_or(meta, "/features/use_energy"@, o.use_energy),
        energy_floor: number_or(meta, "/features/energy_floor"@, o.energy_floor, f),
        cepstral_lifter: number_or(meta, "/features/cepstral_lifter"@, o.cepstral_lifter, f),
        ..o
    }
}

/// The feature settings of a model.
pub fn mfcc_from_meta<F: Fn(FloatOp) -> u64>(meta: &[u8], f: &F) -> (r: MfccOptions)
    requires
        is_evaluator(*f),
    ensures
        r == mfcc_settings(meta@, *f),
{
    let mut o = MfccOptions::default();
    o.sample_rate = get_whole_or(meta, "/features/sample_frequency", o.sample_rate, f);
    o.frame_length_ms = get_number_or(meta, "/features/frame_length", o.frame_length_ms, f);
    o.frame_shift_ms = get_number_or(meta, "/features/frame_shift", o.frame_shift_ms, f);
    o.dither = get_number_or(meta, "/features/dither", o.dither, f);
    o.preemph = get_number_or(meta, "/features/preemphasis_coefficient", o.preemph, f);
    o.snip_edges = get_flag_or(meta, "/features/snip_edges", o.snip_edges);
    o.num_mel_bins = get_whole_or(meta, "/features/num_mel_bins", o.num_mel_bins, f);
    o.low_freq = get_number_or(meta, "/features/low_frequency", o.low_freq, f);
    o.high_freq = get_number_or(meta, "/features/high_frequency", o.high_freq, f);
    o.num_ceps = get_whole_or(meta, "/features/num_coefficients", o.num_ceps, f);
    o.use_energy = get_flag_or(meta, "/features/use_energy", o.use_energy);
    o.energy_floor = get_number_or(meta, "/features/energy_floor", o.energy_floor, f);
    o.cepstral_lifter = get_number_or(meta, "/features/cepstral_lifter", o.cepstral_lifter, f);
    o
}

/// A file of a model: its bytes, or that it is absent, or why it could not be read.
pub type Member = Result<Option<Vec<u8>>, ImportError>;

/// The files of a model.
#[derive(Debug)]
pub struct ModelFiles {
    /// Where they are, for the messages.
    pub path: String,
    pub meta: Member,
    pub phones: Member,
    pub tree: Member,
    pub mdl: Member,
    pub alimdl: Member,
    pub lda: Member,
}

/// What a file of a model is.
pub open spec fn member(m: Member) -> Result<Option<Seq<u8>>, ImportFault> {
    match m {
        Ok(Some(bytes)) => Ok(Some(bytes@)),
        Ok(None) => Ok(None),
        Err(e) => Err(e@),
    }
}

/// The bytes of a file that has to be there.
pub open spec fn required(m: Member, path: Seq<char>, name: Seq<char>) -> Result<
    Seq<u8>,
    ImportFault,
> {
    match member(m) {
        Ok(Some(bytes)) => Ok(bytes),
        Ok(None) => Err(ImportFault::Missing { path, missing: name }),
        Err(e) => Err(e),
    }
}

fn require(m: Member, path: &String, name: &str) -> (r: Result<Vec<u8>, ImportError>)
    ensures
        match required(m, path@, name@) {
            Ok(bytes) => r matches Ok(x) && x@ == bytes,
            Err(e) => r matches Err(x) && x@ == e,
        },
{
    match m {
        Ok(Some(bytes)) => Ok(bytes),
        Ok(None) => Err(
            ImportError::Missing {
                path: String::from_str(path.as_str()),
                missing: String::from_str(name),
            },
        ),
        Err(e) => Err(e),
    }
}

/// The settings of a model.
pub open spec fn settings_in(m: Member, path: Seq<char>) -> Result<Seq<u8>, ImportFault> {
    match required(m, path, "meta.json"@) {
        Ok(bytes) => match json_error(bytes) {
            Some(msg) => Err(ImportFault::BadContent { file: "meta.json"@, msg }),
            None => Ok(bytes),
        },
        Err(e) => Err(e),
    }
}

/// The phones of a model.
pub open spec fn phones_in(m: Member, path: Seq<char>) -> Result<Seq<Seq<char>>, ImportFault> {
    match required(m, path, "phones.txt"@) {
        Ok(bytes) => symbols_in(bytes),
        Err(e) => Err(e),
    }
}

/// The tree of a model: the width of the window, its central position, and the map.
pub open spec fn tree_in(m: Member, path: Seq<char>) -> Result<(int, int, Tree), ImportFault> {
    match required(m, path, "tree"@) {
        Ok(bytes) => match header_fault(bytes) {
            Some(source) => Err(ImportFault::Parse { file: "tree"@, source }),
            None => match context_dependency_at(bytes, 2) {
                Parsed::Done(v, next) => Ok(v),
                Parsed::Failed(source, next) => Err(ImportFault::Parse { file: "tree"@, source }),
            },
        },
        Err(e) => Err(e),
    }
}

/// The transition model and the mixtures that a file holds.
pub open spec fn stored_in<F: Fn(FloatOp) -> u64>(bytes: Seq<u8>, file: Seq<char>, f: F) -> Result<
    (StoredModel, Seq<GmmView>),
    ImportFault,
> {
    match header_fault(bytes) {
        Some(source) => Err(ImportFault::Parse { file, source }),
        None => match transition_model_at(bytes, 2, f) {
            Parsed::Done(m, p1) => match am_diag_gmm_at(bytes, p1, f) {
                Parsed::Done(am, p2) => Ok((m, am)),
                Parsed::Failed(source, p2) => Err(ImportFault::Parse { file, source }),
            },
            Parsed::Failed(source, p1) => Err(ImportFault::Parse { file, source }),
        },
    }
}

/// The settings of a file.
fn read_settings(m: Member, path: &String) -> (r: Result<Vec<u8>, ImportError>)
    ensures
        match settings_in(m, path@) {
            Ok(bytes) => r matches Ok(x) && x@ == bytes,
            Err(e) => r matches Err(x) && x@ == e,
        },
{
    match require(m, path, "meta.json") {
        Ok(bytes) => match find_error(bytes.as_slice()) {
            Some(msg) => Err(ImportError::BadContent { file: String::from_str("meta.json"), msg }),
            None => Ok(bytes),
        },
        Err(e) => Err(e),
    }
}

fn read_phones(m: Member, path: &String) -> (r: Result<SymbolTable, ImportError>)
    ensures
        match phones_in(m, path@) {
            Ok(table) => r matches Ok(x) && x@ == table && is_table(table),
            Err(e) => r matches Err(x) && x@ == e,
        },
{
    match require(m, path, "phones.txt") {
        Ok(bytes) => parse_symbol_table(bytes.as_slice()),
        Err(e) => Err(e),
    }
}

fn parse_error(file: &str, source: KaldiReadError) -> (r: ImportError)
    ensures
        r@ == (ImportFault::Parse { file: file@, source: source@ }),
{
    ImportError::Parse { file: String::from_str(file), source }
}

fn read_tree(m: Member, path: &String) -> (r: Result<ContextDependency, ImportError>)
    ensures
        match tree_in(m, path@) {
            Ok(v) => r matches Ok(x) && x.n == v.0 && x.p == v.1 && x.map.tree() == v.2,
            Err(e) => r matches Err(x) && x@ == e,
        },
{
    let bytes = match require(m, path, "tree") {
        Ok(bytes) => bytes,
        Err(e) => {
            return Err(e);
        },
    };
    let mut reader = match KaldiReader::new(bytes.as_slice()) {
        Ok(reader) => reader,
        Err(source) => {
            return Err(parse_error("tree", source));
        },
    };
    match read_context_dependency(&mut reader) {
        Ok(ctx) => Ok(ctx),
        Err(source) => Err(parse_error("tree", source)),
    }
}

fn read_stored<F: Fn(FloatOp) -> u64>(bytes: &Vec<u8>, file: &str, f: &F) -> (r: Result<
    (KaldiTransitionModel, AmDiagGmm),
    ImportError,
>)
    requires
        is_evaluator(*f),
    ensures
        match stored_in(bytes@, file@, *f) {
            Ok(v) => r matches Ok(x) && x.0@ == v.0 && x.1@ == v.1,
            Err(e) => r matches Err(x) && x@ == e,
        },
{
    let mut reader = match KaldiReader::new(bytes.as_slice()) {
        Ok(reader) => reader,
        Err(source) => {
            return Err(parse_error(file, source));
        },
    };
    let tm = match read_transition_model(&mut reader, f) {
        Ok(tm) => tm,
        Err(source) => {
            return Err(parse_error(file, source));
        },
    };
    match read_am_diag_gmm(&mut reader, f) {
        Ok(am) => Ok((tm, am)),
        Err(source) => Err(parse_error(file, source)),
    }
}

/// What the files hold before anything is put together.
#[verifier::ext_equal]
pub struct Contents {
    pub meta: Seq<u8>,
    pub phones: Seq<Seq<char>>,
    /// The width of the tree's window, its central position, and the map.
    pub tree: (int, int, Tree),
    pub stored: StoredModel,
    pub am: Seq<GmmView>,
    /// The mixtures of `final.alimdl`.
    pub am_si: Option<Seq<GmmView>>,
}

/// The contents of the files, or the first fault: settings, phones, tree, `final.mdl`,
/// `final.alimdl`.
pub open spec fn contents<F: Fn(FloatOp) -> u64>(files: ModelFiles, f: F) -> Result<
    Contents,
    ImportFault,
> {
    let path = files.path@;
    match settings_in(files.meta, path) {
        Err(e) => Err(e),
        Ok(meta) => match phones_in(files.phones, path) {
            Err(e) => Err(e),
            Ok(phones) => match tree_in(files.tree, path) {
                Err(e) => Err(e),
                Ok(tree) => match required(files.mdl, path, "final.mdl"@) {
                    Err(e) => Err(e),
                    Ok(bytes) => match stored_in(bytes, "final.mdl"@, f) {
                        Err(e) => Err(e),
                        Ok(v) => match member(files.alimdl) {
                            Err(e) => Err(e),
                            Ok(None) => Ok(
                                Contents {
                                    meta,
                                    phones,
                                    tree,
                                    stored: v.0,
                                    am: v.1,
                                    am_si: None,
                                },
                            ),
                            Ok(Some(bytes)) => match stored_in(bytes, "final.alimdl"@, f) {
                                Err(e) => Err(e),
                                Ok(w) => Ok(
                                    Contents {
                                        meta,
                                        phones,
                                        tree,
                                        stored: v.0,
                                        am: v.1,
                                        am_si: Some(w.1),
                                    },
                                ),
                            },
                        },
                    },
                },
            },
        },
    }
}

/// What the files hold.
struct Loaded {
    meta: Vec<u8>,
    phones: SymbolTable,
    ctx: ContextDependency,
    stored: KaldiTransitionModel,
    am: AmDiagGmm,
    am_si: Option<AmDiagGmm>,
}

/// What optional mixtures are.
pub open spec fn optional_am(am: Option<AmDiagGmm>) -> Option<Seq<GmmView>> {
    match am {
        Some(am) => Some(am@),
        None => None,
    }
}

/// What an optional matrix is.
pub open spec fn optional_matrix(m: Option<Matrix>) -> Option<MatrixView> {
    match m {
        Some(m) => Some(m@),
        None => None,
    }
}

impl View for Loaded {
    type V = Contents;

    closed spec fn view(&self) -> Contents {
        Contents {
            meta: self.meta@,
            phones: self.phones@,
            tree: (self.ctx.n as int, self.ctx.p as int, self.ctx.map.tree()),
            stored: self.stored@,
            am: self.am@,
            am_si: optional_am(self.am_si),
        }
    }
}

/// Read the files. The transform is read later, and handed back with the contents.
fn load<F: Fn(FloatOp) -> u64>(files: ModelFiles, f: &F) -> (r: Result<(Loaded, Member), ImportError>)
    requires
        is_evaluator(*f),
    ensures
        match contents(files, *f) {
            Ok(c) => r matches Ok(x) && x.0@ == c && is_table(c.phones) && x.1 == files.lda,
            Err(e) => r matches Err(x) && x@ == e,
        },
{
    let path = files.path;
    let meta = match read_settings(files.meta, &path) {
        Ok(v) => v,
        Err(e) => {
            return Err(e);
        },
    };
    let phones = match read_phones(files.phones, &path) {
        Ok(v) => v,
        Err(e) => {
            return Err(e);
        },
    };
    let ctx = match read_tree(files.tree, &path) {
        Ok(v) => v,
        Err(e) => {
            return Err(e);
        },
    };
    let mdl = match require(files.mdl, &path, "final.mdl") {
        Ok(v) => v,
        Err(e) => {
            return Err(e);
        },
    };
    let (stored, am) = match read_stored(&mdl, "final.mdl", f) {
        Ok(v) => v,
        Err(e) => {
            return Err(e);
        },
    };
    let am_si = match files.alimdl {
        Err(e) => {
            return Err(e);
        },
        Ok(None) => None,
        Ok(Some(bytes)) => match read_stored(&bytes, "final.alimdl", f) {
            Ok(v) => Some(v.1),
            Err(e) => {
                return Err(e);
            },
        },
    };
    Ok((Loaded { meta, phones, ctx, stored, am, am_si }, files.lda))
}

/// There is a transition model over the tree and the topology of the files, and the components of
/// the mixtures can be counted.
pub open spec fn is_sound(c: Contents) -> bool {
    &&& buildable(c.tree.1 as usize, c.tree.2, c.stored.topo)
    &&& gauss_count(c.am, c.am.len() as int) <= usize::MAX
}

/// The transition model over the tree and the topology of the files, before it takes the stored
/// probabilities over.
pub open spec fn bare_model<F: Fn(FloatOp) -> u64>(c: Contents, f: F) -> ModelView {
    let topo = c.stored.topo;
    let tuples = model_tuples(c.tree.1 as usize, c.tree.2, topo);
    let log_probs = initial_log_probs(topo, tuples, f);
    ModelView { topo, tuples, log_probs, leaving: leaving_log_probs(topo, tuples, log_probs, f) }
}

/// The transition model with the stored probabilities, or how the files disagree.
pub open spec fn final_model<F: Fn(FloatOp) -> u64>(c: Contents, f: F) -> Result<
    ModelView,
    Seq<char>,
> {
    let m = bare_model(c, f);
    if m.tuples.len() != c.stored.tuples.len() {
        Err(
            "rebuilt "@ + decimal(m.tuples.len())
                + " transition states from tree+topology, but final.mdl has "@ + decimal(
                c.stored.tuples.len(),
            ),
        )
    } else if pdfs_of(m.tuples) != c.am.len() {
        Err(
            "tree yields "@ + decimal(pdfs_of(m.tuples) as nat) + " pdfs but final.mdl has "@
                + decimal(c.am.len()) + " GMMs"@,
        )
    } else {
        match grouped_from(c.stored, 0, 1) {
            Err(msg) => Err(msg),
            Ok(list) => match probs_fault(m, list, 1) {
                Some(fault) => Err(probs_message(fault)),
                None => {
                    let log_probs = placed_probs(m, list);
                    Ok(
                        ModelView {
                            log_probs,
                            leaving: leaving_log_probs(m.topo, m.tuples, log_probs, f),
                            ..m
                        },
                    )
                },
            },
        }
    }
}

fn rebuild<F: Fn(FloatOp) -> u64>(mut tm: TransitionModel, l: &Loaded, f: &F) -> (r: Result<
    TransitionModel,
    ImportError,
>)
    requires
        is_evaluator(*f),
        tm.wf(),
        tm@ == bare_model(l@, *f),
    ensures
        match final_model(l@, *f) {
            Ok(m) => r matches Ok(x) && x.wf() && x@ == m,
            Err(msg) => r matches Err(x) && x@ == ImportFault::Inconsistent(msg),
        },
{
    if tm.num_transition_states() != l.stored.tuples.len() {
        let mut msg = String::from_str("rebuilt ");
        append_decimal(&mut msg, tm.num_transition_states() as u64);
        msg.append(" transition states from tree+topology, but final.mdl has ");
        append_decimal(&mut msg, l.stored.tuples.len() as u64);
        return Err(ImportError::Inconsistent(msg));
    }
    if tm.num_pdfs() != l.am.num_pdfs() {
        let mut msg = String::from_str("tree yields ");
        append_decimal(&mut msg, tm.num_pdfs() as u64);
        msg.append(" pdfs but final.mdl has ");
        append_decimal(&mut msg, l.am.num_pdfs() as u64);
        msg.append(" GMMs");
        return Err(ImportError::Inconsistent(msg));
    }
    let foreign = match kaldi_log_probs_by_tuple(&l.stored) {
        Ok(v) => v,
        Err(e) => {
            return Err(e);
        },
    };
    match tm.set_log_probs_by_tuple(&foreign, f) {
        Ok(u) => Ok(tm),
        Err(fault) => Err(ImportError::Inconsistent(fault.to_string())),
    }
}

/// The transform of the files, if there is one.
pub open spec fn transform_in<F: Fn(FloatOp) -> u64>(lda: Member, f: F) -> Result<
    Option<MatrixView>,
    ImportFault,
> {
    match member(lda) {
        Err(e) => Err(e),
        Ok(None) => Ok(None),
        Ok(Some(bytes)) => match header_fault(bytes) {
            Some(source) => Err(ImportFault::Parse { file: "lda.mat"@, source }),
            None => match matrix_at(bytes, 2, f) {
                Parsed::Done(m, next) => Ok(Some(unflattened(m.0, m.1, m.2))),
                Parsed::Failed(source, next) => Err(
                    ImportFault::Parse { file: "lda.mat"@, source },
                ),
            },
        },
    }
}

fn read_transform<F: Fn(FloatOp) -> u64>(lda: Member, f: &F) -> (r: Result<Option<Matrix>, ImportError>)
    requires
        is_evaluator(*f),
    ensures
        match transform_in(lda, *f) {
            Ok(m) => r matches Ok(x) && optional_matrix(x) == m,
            Err(e) => r matches Err(x) && x@ == e,
        },
{
    match lda {
        Err(e) => Err(e),
        Ok(None) => Ok(None),
        Ok(Some(bytes)) => match read_matrix_file(bytes.as_slice(), f) {
            Ok(m) => Ok(Some(m)),
            Err(source) => Err(parse_error("lda.mat", source)),
        },
    }
}

/// The phones of the optional silence and of unknown words, as far as the table has them, by
/// increasing number.
pub open spec fn silence_in(meta: Seq<u8>, phones: Seq<Seq<char>>) -> Seq<PhoneId> {
    let a = number_of(phones, text_or(meta, "/optional_silence_phone"@, "sil"@));
    let b = number_of(phones, text_or(meta, "/oov_phone"@, "spn"@));
    match (a, b) {
        (Some(a), Some(b)) => if a < b {
            seq![a as u32, b as u32]
        } else if b < a {
            seq![b as u32, a as u32]
        } else {
            seq![a as u32]
        },
        (Some(a), None) => seq![a as u32],
        (None, Some(b)) => seq![b as u32],
        (None, None) => seq![],
    }
}

fn find_silence(meta: &[u8], phones: &SymbolTable) -> (r: Vec<PhoneId>)
    requires
        is_table(phones@),
    ensures
        r@ == silence_in(meta@, phones@),
{
    let a = phones.id(get_text_or(meta, "/optional_silence_phone", "sil").as_str());
    let b = phones.id(get_text_or(meta, "/oov_phone", "spn").as_str());
    let mut out: Vec<PhoneId> = Vec::new();
    match (a, b) {
        (Some(a), Some(b)) => {
            if a < b {
                out.push(a);
                out.push(b);
            } else if b < a {
                out.push(b);
                out.push(a);
            } else {
                out.push(a);
            }
        },
        (Some(a), None) => {
            out.push(a);
        },
        (None, Some(b)) => {
            out.push(b);
        },
        (None, None) => {},
    }
    assert(out@ =~= silence_in(meta@, phones@));
    out
}

/// The frames to the left and right that are spliced.
pub open spec fn splice_settings(meta: Seq<u8>) -> (usize, usize) {
    (
        count_or(meta, "/features/splice_left_context"@, 3),
        count_or(meta, "/features/splice_right_context"@, 3),
    )
}

/// The transform maps spliced cepstra, with or without an offset, to the dimension of the mixtures.
pub open spec fn fits_splicing(m: MatrixView, num_ceps: int, splice: (usize, usize), dim: int) -> bool {
    let spliced = num_ceps * (splice.0 + 1 + splice.1);
    m.rows.len() == dim && (m.cols == spliced || m.cols == spliced + 1)
}

/// The model is over spliced features. Its settings can say so; they are not reliable when they do
/// not, so a transform that fits decides too.
pub open spec fn is_spliced(meta: Seq<u8>, lda: Option<MatrixView>, num_ceps: int, dim: int) -> bool {
    flag_or(meta, "/features/uses_splices"@, false) || (lda matches Some(m) && fits_splicing(
        m,
        num_ceps,
        splice_settings(meta),
        dim,
    ))
}

fn matrix_fits(m: &Matrix, num_ceps: u32, splice: (usize, usize), dim: usize) -> (r: bool)
    ensures
        r == fits_splicing(m@, num_ceps as int, splice, dim as int),
{
    let frames: u128 = splice.0 as u128 + 1 + splice.1 as u128;
    assert(num_ceps * frames <= 0xffff_ffff * 0x2_0000_0000_0000_0000) by (nonlinear_arith)
        requires
            num_ceps <= 0xffff_ffff,
            frames <= 0x2_0000_0000_0000_0000,
    ;
    assert(0 <= num_ceps * frames) by (nonlinear_arith);
    let spliced: u128 = num_ceps as u128 * frames;
    m.nrows() == dim && (m.ncols() as u128 == spliced || m.ncols() as u128 == spliced + 1)
}

/// The graph settings of a model.
pub open spec fn graph_settings<F: Fn(FloatOp) -> u64>(
    meta: Seq<u8>,
    phones: Seq<Seq<char>>,
    f: F,
) -> GraphOptions {
    GraphOptions {
        transition_scale: ONE,
        self_loop_scale: TENTH,
        silence_phone: match number_of(
            phones,
            text_or(meta, "/optional_silence_phone"@, "sil"@),
        ) {
            Some(n) => n as u32,
            None => 1,
        },
        silence_prob: number_or(meta, "/silence_probability"@, HALF, f),
        initial_silence_prob: number_or(meta, "/initial_silence_probability"@, HALF, f),
        final_silence_correction: number_or(meta, "/final_silence_correction"@, ONE, f),
        final_non_silence_correction: number_or(meta, "/final_non_silence_correction"@, ONE, f),
        position_dependent: flag_or(meta, "/dictionaries/position_dependent_phones"@, false),
    }
}

fn read_graph_settings<F: Fn(FloatOp) -> u64>(meta: &[u8], phones: &SymbolTable, f: &F) -> (r:
    GraphOptions)
    requires
        is_evaluator(*f),
        is_table(phones@),
    ensures
        r == graph_settings(meta@, phones@, *f),
{
    let silence_phone: PhoneId = match phones.id(
        get_text_or(meta, "/optional_silence_phone", "sil").as_str(),
    ) {
        Some(n) => n,
        None => 1,
    };
    GraphOptions {
        transition_scale: ONE,
        self_loop_scale: TENTH,
        silence_phone,
        silence_prob: get_number_or(meta, "/silence_probability", HALF, f),
        initial_silence_prob: get_number_or(meta, "/initial_silence_probability", HALF, f),
        final_silence_correction: get_number_or(meta, "/final_silence_correction", ONE, f),
        final_non_silence_correction: get_number_or(meta, "/final_non_silence_correction", ONE, f),
        position_dependent: get_flag_or(meta, "/dictionaries/position_dependent_phones", false),
    }
}

/// An entry of the provenance, if there is a value for it.
pub open spec fn entry(key: Seq<char>, v: Option<Seq<char>>) -> Seq<(Seq<char>, Seq<char>)> {
    match v {
        Some(v) => seq![(key, v)],
        None => seq![],
    }
}

/// Where a model comes from, by increasing key.
pub open spec fn provenance(meta: Seq<u8>) -> Seq<(Seq<char>, Seq<char>)> {
    seq![("imported_from"@, "montreal-forced-aligner"@)] + entry(
        "mfa_architecture"@,
        json_text(meta, "/architecture"@),
    ) + entry("mfa_audio_duration"@, json_shown(meta, "/training/audio_duration"@)) + entry(
        "mfa_language"@,
        json_text(meta, "/language"@),
    ) + entry("mfa_num_speakers"@, json_shown(meta, "/training/num_speakers"@)) + entry(
        "mfa_num_utterances"@,
        json_shown(meta, "/training/num_utterances"@),
    ) + entry("mfa_phone_set_type"@, json_text(meta, "/phone_set_type"@)) + entry(
        "mfa_train_date"@,
        json_text(meta, "/train_date"@),
    ) + entry("mfa_version"@, json_text(meta, "/version"@))
}

/// The texts of keys and values.
pub open spec fn pairs(v: Seq<(String, String)>) -> Seq<(Seq<char>, Seq<char>)> {
    Seq::new(v.len(), |i: int| (v[i].0@, v[i].1@))
}

fn push_entry(out: &mut Vec<(String, String)>, key: &str, v: Option<String>)
    ensures
        pairs(final(out)@) == pairs(old(out)@) + entry(key@, optional_text(v)),
{
    match v {
        Some(v) => {
            out.push((String::from_str(key), v));
        },
        None => {},
    }
    assert(pairs(out@) =~= pairs(old(out)@) + entry(key@, optional_text(v)));
}

fn read_provenance(meta: &[u8]) -> (r: Vec<(String, String)>)
    ensures
        pairs(r@) == provenance(meta@),
{
    let mut out: Vec<(String, String)> = Vec::new();
    out.push((String::from_str("imported_from"), String::from_str("montreal-forced-aligner")));
    assert(pairs(out@) =~= seq![("imported_from"@, "montreal-forced-aligner"@)]);
    push_entry(&mut out, "mfa_architecture", find_text(meta, "/architecture"));
    push_entry(&mut out, "mfa_audio_duration", find_shown(meta, "/training/audio_duration"));
    push_entry(&mut out, "mfa_language", find_text(meta, "/language"));
    push_entry(&mut out, "mfa_num_speakers", find_shown(meta, "/training/num_speakers"));
    push_entry(&mut out, "mfa_num_utterances", find_shown(meta, "/training/num_utterances"));
    push_entry(&mut out, "mfa_phone_set_type", find_text(meta, "/phone_set_type"));
    push_entry(&mut out, "mfa_train_date", find_text(meta, "/train_date"));
    push_entry(&mut out, "mfa_version", find_text(meta, "/version"));
    out
}

/// What was taken over: the counts worth showing.
#[derive(Clone, Copy, Debug, PartialEq, Eq)]
pub struct ImportReport {
    pub num_pdfs: usize,
    pub num_gauss: usize,
    pub num_transition_ids: usize,
    pub num_transition_states: usize,
    /// How many tuples were stored.
    pub kaldi_num_transition_states: usize,
    pub feature_dim: usize,
    pub num_phones: usize,
    pub has_alignment_model: bool,
    /// The rows and columns of the transform, if there is one, used or not.
    pub lda_shape: Option<(usize, usize)>,
}

/// The mixtures of the first pass are kept for speaker-adapted models only.
pub open spec fn kept_si(c: Contents) -> Option<Seq<GmmView>> {
    if flag_or(c.meta, "/features/uses_speaker_adaptation"@, false) {
        c.am_si
    } else {
        None
    }
}

/// The model that the contents of the files make, with this transition model and this transform.
pub open spec fn is_import<F: Fn(FloatOp) -> u64>(
    model: AcousticModel,
    c: Contents,
    tm: ModelView,
    lda: Option<MatrixView>,
    f: F,
) -> bool {
    let mfcc = mfcc_settings(c.meta, f);
    let spliced = is_spliced(c.meta, lda, mfcc.num_ceps as int, dim_of(c.am));
    &&& model.version == FORMAT_VERSION
    &&& model.phones@ == c.phones
    &&& model.silence_phones@ == silence_in(c.meta, c.phones)
    &&& model.position_dependent == flag_or(
        c.meta,
        "/dictionaries/position_dependent_phones"@,
        false,
    )
    &&& model.mfcc == mfcc
    &&& model.deltas == (if !spliced && flag_or(c.meta, "/features/uses_deltas"@, true) {
        Some(DeltaOptions { order: 2, window: 2 })
    } else {
        None
    })
    &&& model.splice == (if spliced {
        Some(splice_settings(c.meta))
    } else {
        None
    })
    &&& optional_matrix(model.lda) == (if spliced {
        lda
    } else {
        None
    })
    &&& model.topo@ == c.stored.topo
    &&& model.ctx.n == c.tree.0
    &&& model.ctx.p == c.tree.1
    &&& model.ctx.map.tree() == c.tree.2
    &&& model.tm.wf()
    &&& model.tm@ == tm
    &&& model.am@ == c.am
    &&& optional_am(model.am_si) == kept_si(c)
    &&& model.fmllr == (kept_si(c) is Some)
    &&& model.graph_opts == graph_settings(c.meta, c.phones, f)
    &&& pairs(model.meta@) == provenance(c.meta)
}

/// The report on such a model.
pub open spec fn is_report(
    report: ImportReport,
    c: Contents,
    tm: ModelView,
    lda: Option<MatrixView>,
) -> bool {
    &&& report.num_pdfs == c.am.len()
    &&& report.num_gauss == gauss_count(c.am, c.am.len() as int)
    &&& report.num_transition_ids == id_count(tm.topo, tm.tuples)
    &&& report.num_transition_states == tm.tuples.len()
    &&& report.kaldi_num_transition_states == c.stored.tuples.len()
    &&& report.feature_dim == dim_of(c.am)
    &&& report.num_phones == c.phones.len()
    &&& report.has_alignment_model == (kept_si(c) is Some)
    &&& match lda {
        Some(m) => report.lda_shape matches Some(s) && s.0 == m.rows.len() && s.1 == m.cols,
        None => report.lda_shape is None,
    }
}

/// What the contents of the files come to: a model and its report, or the first fault. The
/// transition model is checked before the transform is read.
pub open spec fn contents_outcome<F: Fn(FloatOp) -> u64>(
    r: Result<(AcousticModel, ImportReport), ImportError>,
    c: Contents,
    lda: Member,
    f: F,
) -> bool {
    match final_model(c, f) {
        Err(msg) => r matches Err(x) && x@ == ImportFault::Inconsistent(msg),
        Ok(tm) => match transform_in(lda, f) {
            Err(e) => r matches Err(x) && x@ == e,
            Ok(m) => r matches Ok(x) && is_import(x.0, c, tm, m, f) && is_report(x.1, c, tm, m),
        },
    }
}

/// What taking the files over comes to.
pub open spec fn import_outcome<F: Fn(FloatOp) -> u64>(
    r: Result<(AcousticModel, ImportReport), ImportError>,
    files: ModelFiles,
    f: F,
) -> bool {
    match contents(files, f) {
        Err(e) => r matches Err(x) && x@ == e,
        Ok(c) => contents_outcome(r, c, files.lda, f),
    }
}

fn assemble<F: Fn(FloatOp) -> u64>(
    l: Loaded,
    tm: TransitionModel,
    lda: Option<Matrix>,
    num_gauss: usize,
    f: &F,
) -> (r: (AcousticModel, ImportReport))
    requires
        is_evaluator(*f),
        tm.wf(),
        is_table(l@.phones),
        num_gauss == gauss_count(l@.am, l@.am.len() as int),
    ensures
        is_import(r.0, l@, tm@, optional_matrix(lda), *f),
        is_report(r.1, l@, tm@, optional_matrix(lda)),
{
    let ghost c = l@;
    let meta = l.meta.as_slice();
    let silence_phones = find_silence(meta, &l.phones);
    let mfcc = mfcc_from_meta(meta, f);
    let dim: usize = l.am.dim();
    let splice: (usize, usize) = (
        get_count_or(meta, "/features/splice_left_context", 3),
        get_count_or(meta, "/features/splice_right_context", 3),
    );
    let mut lda_shape: Option<(usize, usize)> = None;
    let mut fits: bool = false;
    match &lda {
        Some(m) => {
            lda_shape = Some((m.nrows(), m.ncols()));
            fits = matrix_fits(m, mfcc.num_ceps, splice, dim);
        },
        None => {},
    }
    let spliced: bool = get_flag_or(meta, "/features/uses_splices", false) || fits;
    let uses_deltas: bool = get_flag_or(meta, "/features/uses_deltas", true);
    let deltas: Option<DeltaOptions> = if !spliced && uses_deltas {
        Some(DeltaOptions::default())
    } else {
        None
    };
    let graph_opts = read_graph_settings(meta, &l.phones, f);
    let provenance = read_provenance(meta);
    let adapted: bool = get_flag_or(meta, "/features/uses_speaker_adaptation", false);
    let am_si = if adapted {
        l.am_si
    } else {
        None
    };
    let has_alignment_model: bool = am_si.is_some();
    let report = ImportReport {
        num_pdfs: l.am.num_pdfs(),
        num_gauss,
        num_transition_ids: tm.num_transition_ids(),
        num_transition_states: tm.num_transition_states(),
        kaldi_num_transition_states: l.stored.tuples.len(),
        feature_dim: dim,
        num_phones: l.phones.len(),
        has_alignment_model,
        lda_shape,
    };
    let model = AcousticModel {
        version: FORMAT_VERSION,
        phones: l.phones,
        silence_phones,
        position_dependent: graph_opts.position_dependent,
        mfcc,
        deltas,
        splice: if spliced {
            Some(splice)
        } else {
            None
        },
        lda: if spliced {
            lda
        } else {
            None
        },
        topo: l.stored.topo,
        ctx: l.ctx,
        tm,
        am: l.am,
        am_si,
        fmllr: has_alignment_model,
        graph_opts,
        meta: provenance,
    };
    (model, report)
}

/// Put the contents of the files together.
fn finish<F: Fn(FloatOp) -> u64>(l: Loaded, lda: Member, f: &F) -> (r: Option<
    Result<(AcousticModel, ImportReport), ImportError>,
>)
    requires
        is_evaluator(*f),
        is_table(l@.phones),
    ensures
        r is None == !is_sound(l@),
        r matches Some(x) ==> contents_outcome(x, l@, lda, *f),
{
    let bare = match TransitionModel::try_new(&l.ctx, &l.stored.topo, f) {
        Some(tm) => tm,
        None => {
            return None;
        },
    };
    assert(bare@ == bare_model(l@, *f));
    let num_gauss: usize = match l.am.try_num_gauss() {
        Some(n) => n,
        None => {
            return None;
        },
    };
    let tm = match rebuild(bare, &l, f) {
        Ok(tm) => tm,
        Err(e) => {
            return Some(Err(e));
        },
    };
    let m = match read_transform(lda, f) {
        Ok(m) => m,
        Err(e) => {
            return Some(Err(e));
        },
    };
    Some(Ok(assemble(l, tm, m, num_gauss, f)))
}

/// Take a model over from its files. None where there is no transition model over the tree and the
/// topology.
pub fn build<F: Fn(FloatOp) -> u64>(files: ModelFiles, f: &F) -> (r: Option<
    Result<(AcousticModel, ImportReport), ImportError>,
>)
    requires
        is_evaluator(*f),
    ensures
        r is None == (contents(files, *f) matches Ok(c) && !is_sound(c)),
        r matches Some(x) ==> import_outcome(x, files, *f),
{
    match load(files, f) {
        Ok((l, lda)) => finish(l, lda, f),
        Err(e) => Some(Err(e)),
    }
}

} // verus!
