//! The acoustic model and the frame of the file that holds it.
//!
//! A model file starts with four magic bytes and a format version in little-endian order; the
//! encoded model follows.

use vstd::prelude::*;
use vstd::slice::slice_subrange;
use vstd::string::StringExecFns;

use crate::feat::options::{DeltaOptions, MfccOptions};
use crate::gmm::am::{dim_of, AmDiagGmm};
use crate::gmm::matrix::Matrix;
use crate::hmm::construct::GraphOptions;
use crate::hmm::context::ContextDependency;
use crate::hmm::topology::HmmTopology;
use crate::hmm::transition::TransitionModel;
use crate::kaldi_io::read::le32;
use crate::text::{append_decimal, append_hex_list, decimal, hex_list};
use crate::types::{PhoneId, SymbolTable};

verus! {

/// The bytes `VITR`, which every model file starts with.
pub const MAGIC: [u8; 4] = [0x56, 0x49, 0x54, 0x52];

/// The format version that is written and read.
pub const FORMAT_VERSION: u32 = 2;

/// The bytes before the encoded model.
pub const HEADER_LEN: usize = 8;

/// What is wrong with a model file.
#[derive(Debug)]
#[allow(inconsistent_fields)]
pub enum ModelError {
    /// The file could not be read or written.
    Io { path: String, message: String },
    /// The file does not start with the magic bytes.
    BadMagic { path: String, found: [u8; 4] },
    /// The file is shorter than its header.
    Truncated { path: String, len: usize, need: usize },
    /// The file has another format version.
    VersionMismatch { path: String, found: u32, expected: u32 },
    /// What follows the header is no encoded model.
    Decode { path: String, message: String },
    /// The model cannot be encoded.
    Encode { message: String },
}

/// A [`ModelError`] with its texts as sequences.
#[verifier::ext_equal]
#[allow(inconsistent_fields)]
pub enum ModelFault {
    Io { path: Seq<char>, message: Seq<char> },
    BadMagic { path: Seq<char>, found: Seq<u8> },
    Truncated { path: Seq<char>, len: int, need: int },
    VersionMismatch { path: Seq<char>, found: u32, expected: u32 },
    Decode { path: Seq<char>, message: Seq<char> },
    Encode { message: Seq<char> },
}

impl View for ModelError {
    type V = ModelFault;

    open spec fn view(&self) -> ModelFault {
        match *self {
            ModelError::Io { path, message } => ModelFault::Io { path: path@, message: message@ },
            ModelError::BadMagic { path, found } => ModelFault::BadMagic {
                path: path@,
                found: found@,
            },
            ModelError::Truncated { path, len, need } => ModelFault::Truncated {
                path: path@,
                len: len as int,
                need: need as int,
            },
            ModelError::VersionMismatch { path, found, expected } => ModelFault::VersionMismatch {
                path: path@,
                found,
                expected,
            },
            ModelError::Decode { path, message } => ModelFault::Decode {
                path: path@,
                message: message@,
            },
            ModelError::Encode { message } => ModelFault::Encode { message: message@ },
        }
    }
}

/// The message of a fault.
pub open spec fn model_message(e: ModelFault) -> Seq<char> {
    match e {
        ModelFault::Io { path, message } => "i/o error on "@ + path + ": "@ + message,
        ModelFault::BadMagic { path, found } => path + " is not a viter model file (bad magic "@
            + hex_list(found, found.len() as int) + "], expected "@ + hex_list(MAGIC@, 4) + "])"@,
        ModelFault::Truncated { path, len, need } => path + " is truncated: "@ + decimal(len as nat)
            + " bytes, need at least "@ + decimal(need as nat),
        ModelFault::VersionMismatch { path, found, expected } => path + " has format version "@
            + decimal(found as nat) + ", but this build reads version "@ + decimal(expected as nat),
        ModelFault::Decode { path, message } => "failed to decode "@ + path + ": "@ + message,
        ModelFault::Encode { message } => "failed to encode model: "@ + message,
    }
}

impl ModelError {
    /// The message for the user.
    pub fn to_string(&self) -> (r: String)
        ensures
            r@ == model_message(self@),
    {
        let mut out = String::new();
        match self {
            ModelError::Io { path, message } => {
                out.append("i/o error on ");
                out.append(path.as_str());
                out.append(": ");
                out.append(message.as_str());
            },
            ModelError::BadMagic { path, found } => {
                out.append(path.as_str());
                out.append(" is not a viter model file (bad magic ");
                append_hex_list(&mut out, found.as_slice());
                out.append("], expected ");
                append_hex_list(&mut out, MAGIC.as_slice());
                out.append("])");
            },
            ModelError::Truncated { path, len, need } => {
                out.append(path.as_str());
                out.append(" is truncated: ");
                append_decimal(&mut out, *len as u64);
                out.append(" bytes, need at least ");
                append_decimal(&mut out, *need as u64);
            },
            ModelError::VersionMismatch { path, found, expected } => {
                out.append(path.as_str());
                out.append(" has format version ");
                append_decimal(&mut out, *found as u64);
                out.append(", but this build reads version ");
                append_decimal(&mut out, *expected as u64);
            },
            ModelError::Decode { path, message } => {
                out.append("failed to decode ");
                out.append(path.as_str());
                out.append(": ");
                out.append(message.as_str());
            },
            ModelError::Encode { message } => {
                out.append("failed to encode model: ");
                out.append(message.as_str());
            },
        }
        assert(out@ =~= model_message(self@));
        out
    }
}

/// What is wrong with the frame of a model file: too short, then other magic bytes, then another
/// version.
pub open spec fn frame_fault(bytes: Seq<u8>, path: Seq<char>) -> Option<ModelFault> {
    if bytes.len() < HEADER_LEN {
        Some(
            ModelFault::Truncated { path, len: bytes.len() as int, need: HEADER_LEN as int },
        )
    } else if bytes.subrange(0, 4) != MAGIC@ {
        Some(ModelFault::BadMagic { path, found: bytes.subrange(0, 4) })
    } else if le32(bytes.subrange(4, 8)) != FORMAT_VERSION {
        Some(
            ModelFault::VersionMismatch {
                path,
                found: le32(bytes.subrange(4, 8)),
                expected: FORMAT_VERSION,
            },
        )
    } else {
        None
    }
}

/// The encoded model of a file.
pub open spec fn body_of(bytes: Seq<u8>) -> Seq<u8> {
    bytes.skip(HEADER_LEN as int)
}

/// The file that holds an encoded model.
pub open spec fn framed(body: Seq<u8>) -> Seq<u8> {
    MAGIC@ + seq![2u8, 0u8, 0u8, 0u8] + body
}

/// A framed model passes the checks, and what follows the header is the encoded model again.
pub proof fn framing_can_be_undone(body: Seq<u8>, path: Seq<char>)
    ensures
        frame_fault(framed(body), path) is None,
        body_of(framed(body)) == body,
{
    let b = framed(body);
    assert(b.subrange(0, 4) =~= MAGIC@);
    assert(b.subrange(4, 8) =~= seq![2u8, 0u8, 0u8, 0u8]);
    assert(body_of(b) =~= body);
}

/// The little-endian number of four bytes.
fn number_of_bytes(b: &[u8]) -> (r: u32)
    requires
        b@.len() == 4,
    ensures
        r == le32(b@),
{
    b[0] as u32 + b[1] as u32 * 0x100 + b[2] as u32 * 0x1_0000 + b[3] as u32 * 0x100_0000
}

/// Check the frame of a model file and return the encoded model.
pub fn unframe<'a>(bytes: &'a [u8], path: &str) -> (r: Result<&'a [u8], ModelError>)
    ensures
        match frame_fault(bytes@, path@) {
            Some(e) => r matches Err(x) && x@ == e,
            None => r matches Ok(b) && b@ == body_of(bytes@),
        },
{
    let n: usize = bytes.len();
    if n < HEADER_LEN {
        return Err(
            ModelError::Truncated { path: String::from_str(path), len: n, need: HEADER_LEN },
        );
    }
    let found: [u8; 4] = [bytes[0], bytes[1], bytes[2], bytes[3]];
    assert(found@ =~= bytes@.subrange(0, 4));
    if found[0] != MAGIC[0] || found[1] != MAGIC[1] || found[2] != MAGIC[2] || found[3]
        != MAGIC[3] {
        return Err(ModelError::BadMagic { path: String::from_str(path), found });
    }
    assert(found@ =~= MAGIC@);
    let version: u32 = number_of_bytes(slice_subrange(bytes, 4, 8));
    if version != FORMAT_VERSION {
        return Err(
            ModelError::VersionMismatch {
                path: String::from_str(path),
                found: version,
                expected: FORMAT_VERSION,
            },
        );
    }
    assert(bytes@.subrange(8, n as int) =~= body_of(bytes@));
    Ok(slice_subrange(bytes, HEADER_LEN, n))
}

/// Put the header before an encoded model.
pub fn frame(body: &Vec<u8>) -> (r: Vec<u8>)
    ensures
        r@ == framed(body@),
{
    let mut out: Vec<u8> = Vec::new();
    out.push(MAGIC[0]);
    out.push(MAGIC[1]);
    out.push(MAGIC[2]);
    out.push(MAGIC[3]);
    out.push(2);
    out.push(0);
    out.push(0);
    out.push(0);
    out.extend_from_slice(body.as_slice());
    assert(out@ =~= framed(body@));
    out
}

/// Everything that alignment needs.
#[derive(Debug)]
pub struct AcousticModel {
    /// The format version.
    pub version: u32,
    pub phones: SymbolTable,
    /// The phones that are silence or noise.
    pub silence_phones: Vec<PhoneId>,
    /// Whether the phone symbols carry word-position tags.
    pub position_dependent: bool,
    pub mfcc: MfccOptions,
    /// For models over deltas.
    pub deltas: Option<DeltaOptions>,
    /// Frames to the left and right, for models over spliced features.
    pub splice: Option<(usize, usize)>,
    /// The transform of the spliced features.
    pub lda: Option<Matrix>,
    pub topo: HmmTopology,
    pub ctx: ContextDependency,
    pub tm: TransitionModel,
    /// The mixtures, adapted to the speaker where the model is.
    pub am: AmDiagGmm,
    /// The speaker-independent mixtures of a speaker-adapted model, for its first pass.
    pub am_si: Option<AmDiagGmm>,
    /// Whether speaker transforms are estimated between the passes.
    pub fmllr: bool,
    pub graph_opts: GraphOptions,
    /// Where the model comes from: keys and values, by increasing key.
    pub meta: Vec<(String, String)>,
}

impl AcousticModel {
    /// Read a model file. `decode` decodes what follows the header; `path` is for the errors.
    pub fn from_bytes<D: Fn(&[u8]) -> Result<AcousticModel, String>>(
        bytes: &[u8],
        path: &str,
        decode: &D,
    ) -> (r: Result<AcousticModel, ModelError>)
        requires
            forall|b: &[u8]| call_requires(*decode, (b,)),
        ensures
            match frame_fault(bytes@, path@) {
                Some(e) => r matches Err(x) && x@ == e,
                None => exists|b: &[u8], d: Result<AcousticModel, String>|
                    b@ == body_of(bytes@) && #[trigger] call_ensures(*decode, (b,), d) && match d {
                        Ok(m) => r == Ok::<AcousticModel, ModelError>(m),
                        Err(message) => r matches Err(x) && x@ == (ModelFault::Decode {
                            path: path@,
                            message: message@,
                        }),
                    },
            },
    {
        let body = match unframe(bytes, path) {
            Ok(b) => b,
            Err(e) => {
                return Err(e);
            },
        };
        match decode(body) {
            Ok(m) => Ok(m),
            Err(message) => {
                let e = ModelError::Decode { path: String::from_str(path), message };
                Err(e)
            },
        }
    }

    /// Write a model file; `encode` encodes the model.
    pub fn to_bytes<E: Fn(&AcousticModel) -> Result<Vec<u8>, String>>(&self, encode: &E) -> (r:
        Result<Vec<u8>, ModelError>)
        requires
            call_requires(*encode, (self,)),
        ensures
            exists|d: Result<Vec<u8>, String>| #[trigger]
                call_ensures(*encode, (self,), d) && match d {
                    Ok(body) => r matches Ok(x) && x@ == framed(body@),
                    Err(message) => r matches Err(x) && x@ == (ModelFault::Encode {
                        message: message@,
                    }),
                },
    {
        match encode(self) {
            Ok(body) => Ok(frame(&body)),
            Err(message) => Err(ModelError::Encode { message }),
        }
    }

    /// The dimension of the features that the model scores.
    pub fn feature_dim(&self) -> (r: usize)
        ensures
            r == dim_of(self.am@),
    {
        self.am.dim()
    }

    /// Whether alignment takes a first pass with the speaker-independent mixtures.
    pub fn is_speaker_adapted(&self) -> (r: bool)
        ensures
            r == (self.am_si is Some),
    {
        self.am_si.is_some()
    }
}

} // verus!
