use viter::float::FloatOp;
use viter::kaldi_io::import::{
    build, mfcc_from_meta, parse_symbol_table, ImportError, ModelFiles,
};
use viter::model::{frame, unframe, AcousticModel, ModelError, FORMAT_VERSION, MAGIC};

fn single(x: f32) -> u64 {
    x.to_bits() as u64
}

fn ieee(op: FloatOp) -> u64 {
    let s = f32::from_bits;
    let d = f64::from_bits;
    match op {
        FloatOp::Add(a, b) => single(s(a) + s(b)),
        FloatOp::Sub(a, b) => single(s(a) - s(b)),
        FloatOp::Mul(a, b) => single(s(a) * s(b)),
        FloatOp::Div(a, b) => single(s(a) / s(b)),
        FloatOp::Ln(a) => single(s(a).ln()),
        FloatOp::Exp(a) => single(s(a).exp()),
        FloatOp::Pow(a, b) => single(s(a).powf(s(b))),
        FloatOp::Sqrt(a) => single(s(a).sqrt()),
        FloatOp::Round(a) => single(s(a).round()),
        FloatOp::Sin(a) => single(s(a).sin()),
        FloatOp::Cos(a) => single(s(a).cos()),
        FloatOp::Trunc(a) => s(a) as u64,
        FloatOp::SqrtWide(a) => d(a).sqrt().to_bits(),
        FloatOp::SinWide(a) => d(a).sin().to_bits(),
        FloatOp::CosWide(a) => d(a).cos().to_bits(),
        FloatOp::PowWide(a, b) => d(a).powf(d(b)).to_bits(),
        FloatOp::RoundWide(a) => d(a).round().to_bits(),
        FloatOp::TruncWide(a) => d(a) as u64,
        FloatOp::TruncSigned(a) => d(a) as i64 as u64,
        FloatOp::Count(n) => single(n as f32),
        FloatOp::Widen(a) => (s(a) as f64).to_bits(),
        FloatOp::Narrow(a) => single(d(a) as f32),
        FloatOp::AddWide(a, b) => (d(a) + d(b)).to_bits(),
        FloatOp::SubWide(a, b) => (d(a) - d(b)).to_bits(),
        FloatOp::MulWide(a, b) => (d(a) * d(b)).to_bits(),
        FloatOp::DivWide(a, b) => (d(a) / d(b)).to_bits(),
        FloatOp::LnWide(a) => d(a).ln().to_bits(),
        FloatOp::ExpWide(a) => d(a).exp().to_bits(),
        FloatOp::CountWide(n) => (n as f64).to_bits(),
    }
}

fn decode(bytes: &[u8]) -> Result<AcousticModel, String> {
    Err(format!("no model in {} bytes", bytes.len()))
}

fn load(bytes: &[u8], path: &str) -> ModelError {
    AcousticModel::from_bytes(bytes, path, &decode).err().unwrap()
}

#[test]
fn magic_and_version_are_the_documented_prefix() {
    assert_eq!(&MAGIC, b"VITR");
    assert_eq!(FORMAT_VERSION, 2);
}

#[test]
fn short_input_is_truncated_error() {
    let err = load(b"CRA", "x.viter");
    assert!(matches!(err, ModelError::Truncated { len: 3, need: 8, .. }));
    assert_eq!(err.to_string(), "x.viter is truncated: 3 bytes, need at least 8");
}

#[test]
fn wrong_magic_is_rejected() {
    let mut bytes = b"NOPE".to_vec();
    bytes.extend_from_slice(&1u32.to_le_bytes());
    bytes.push(0);
    match load(&bytes, "x.viter") {
        ModelError::BadMagic { found, .. } => assert_eq!(&found, b"NOPE"),
        other => panic!("expected BadMagic, got {other:?}"),
    }
}

#[test]
fn wrong_version_is_rejected_before_decoding() {
    let mut bytes = MAGIC.to_vec();
    bytes.extend_from_slice(&99u32.to_le_bytes());
    bytes.extend_from_slice(&[0xff; 16]);
    match load(&bytes, "x.viter") {
        ModelError::VersionMismatch { found, expected, .. } => {
            assert_eq!(found, 99);
            assert_eq!(expected, FORMAT_VERSION);
        }
        other => panic!("expected VersionMismatch, got {other:?}"),
    }
}

#[test]
fn corrupt_body_with_valid_header_is_a_decode_error() {
    let mut bytes = MAGIC.to_vec();
    bytes.extend_from_slice(&FORMAT_VERSION.to_le_bytes());
    bytes.extend_from_slice(&[0xff; 4]);
    let err = load(&bytes, "x.viter");
    assert!(matches!(err, ModelError::Decode { .. }));
    assert_eq!(err.to_string(), "failed to decode x.viter: no model in 4 bytes");
}

#[test]
fn error_messages_name_the_file() {
    let err = load(b"XXXXyyyy", "/tmp/model.viter");
    assert!(err.to_string().contains("/tmp/model.viter"));
    assert_eq!(
        err.to_string(),
        "/tmp/model.viter is not a viter model file (bad magic [58, 58, 58, 58], expected [56, 49, 54, 52])"
    );
    let e = ModelError::Io { path: "p".to_string(), message: "gone".to_string() };
    assert_eq!(e.to_string(), "i/o error on p: gone");
    let e = ModelError::Encode { message: "full".to_string() };
    assert_eq!(e.to_string(), "failed to encode model: full");
}

#[test]
fn frames_open_to_what_was_framed() {
    let body = vec![1u8, 2, 3];
    let bytes = frame(&body);
    assert_eq!(bytes.len(), 11);
    assert_eq!(unframe(&bytes, "x").unwrap(), &body[..]);
}

#[test]
fn parses_a_symbol_table_in_file_order() {
    let t = parse_symbol_table("<eps>\t0\nsil\t1\nspn\t2\nae\t3\n".as_bytes()).unwrap();
    assert_eq!(t.len(), 4);
    assert_eq!(t.id("sil"), Some(1));
    assert_eq!(t.sym(3), "ae");
}

#[test]
fn rejects_a_symbol_table_with_a_gap() {
    assert!(parse_symbol_table(b"<eps>\t0\nsil\t5\n").is_err());
    assert!(parse_symbol_table(&[0xff, 0xfe, 0xfd]).is_err());
}

#[test]
fn meta_features_override_the_defaults() {
    let o = mfcc_from_meta(br#"{"features": {"num_coefficients": 20, "use_energy": true}}"#, &ieee);
    assert_eq!(o.num_ceps, 20);
    assert!(o.use_energy);
    assert_eq!(o.num_mel_bins, 23);
}

#[test]
fn models_without_their_files_are_not_imported() {
    let files = ModelFiles {
        path: "m.zip".to_string(),
        meta: Ok(None),
        phones: Ok(None),
        tree: Ok(None),
        mdl: Ok(None),
        alimdl: Ok(None),
        lda: Ok(None),
    };
    let e = build(files, &ieee).unwrap().err().unwrap();
    assert!(matches!(e, ImportError::Missing { .. }));
    assert!(e.to_string().contains("m.zip"));
}
