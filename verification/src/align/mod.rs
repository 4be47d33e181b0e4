//! Alignment of utterances against their decoding graphs.

pub mod equal;
pub mod optimal;
pub mod totals;
pub mod viterbi;

use vstd::prelude::*;
use vstd::string::StringExecFns;

use crate::float::ONE;
use crate::text::{append_decimal, decimal};
use crate::types::{Alignment, PdfId, TransitionId};

verus! {

/// Why an utterance cannot be aligned.
#[derive(Debug)]
pub enum AlignError {
    NoPath,
    TooShort { frames: usize },
    MissingPdf { cols: usize, pdf: PdfId },
}

/// The message of an alignment error.
pub open spec fn align_message(e: AlignError) -> Seq<char> {
    match e {
        AlignError::NoPath => "no path through the graph, even with the retry beam"@,
        AlignError::TooShort { frames } => "utterance has too few frames ("@ + decimal(
            frames as nat,
        ) + ") to align"@,
        AlignError::MissingPdf { cols, pdf } => "scores matrix has "@ + decimal(cols as nat)
            + " columns but the graph needs a column for pdf "@ + decimal(pdf as nat),
    }
}

impl AlignError {
    pub fn to_string(&self) -> (r: String)
        ensures
            r@ == align_message(*self),
    {
        match self {
            AlignError::NoPath => String::from_str(
                "no path through the graph, even with the retry beam",
            ),
            AlignError::TooShort { frames } => {
                let mut out = String::from_str("utterance has too few frames (");
                append_decimal(&mut out, *frames as u64);
                out.append(") to align");
                out
            },
            AlignError::MissingPdf { cols, pdf } => {
                let mut out = String::from_str("scores matrix has ");
                append_decimal(&mut out, *cols as u64);
                out.append(" columns but the graph needs a column for pdf ");
                append_decimal(&mut out, *pdf as u64);
                out
            },
        }
    }
}

/// The posteriors of a hard alignment: weight one on the id of each frame.
pub fn alignment_to_posteriors(ali: &Alignment) -> (r: Vec<(TransitionId, u32)>)
    ensures
        r@ == Seq::new(ali.tids@.len(), |i: int| (ali.tids@[i], ONE)),
{
    let mut out: Vec<(TransitionId, u32)> = Vec::new();
    let mut i: usize = 0;
    while i < ali.tids.len()
        invariant
            i <= ali.tids@.len(),
            out@ == Seq::new(i as nat, |k: int| (ali.tids@[k], ONE)),
        decreases ali.tids.len() - i,
    {
        out.push((ali.tids[i], ONE));
        assert(out@ =~= Seq::new((i + 1) as nat, |k: int| (ali.tids@[k], ONE)));
        i += 1;
    }
    out
}

} // verus!
