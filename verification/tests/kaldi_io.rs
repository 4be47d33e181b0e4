use viter::float::FloatOp;
use viter::kaldi_io::objects::{
    read_am_diag_gmm, read_context_dependency, read_diag_gmm, read_event_map, read_matrix_file,
    read_topology,
};
use viter::kaldi_io::read::{KaldiReadError, KaldiReader};
use viter::tree::EventMap;

fn single(x: f32) -> u64 {
    x.to_bits() as u64
}

fn ieee(op: FloatOp) -> u64 {
    let s = f32::from_bits;
    let d = f64::from_bits;
    match op {
        FloatOp::Add(a, b) => single(s(a) + s(b)),
        FloatOp::Sub(a, b) => single(s(a) - s(b)),
        FloatOp::Mul(a, b) => single(s(a) * s(b)),
        FloatOp::Div(a, b) => single(s(a) / s(b)),
        FloatOp::Ln(a) => single(s(a).ln()),
        FloatOp::Exp(a) => single(s(a).exp()),
        FloatOp::Pow(a, b) => single(s(a).powf(s(b))),
        FloatOp::Sqrt(a) => single(s(a).sqrt()),
        FloatOp::Round(a) => single(s(a).round()),
        FloatOp::Sin(a) => single(s(a).sin()),
        FloatOp::Cos(a) => single(s(a).cos()),
        FloatOp::Trunc(a) => s(a) as u64,
        FloatOp::SqrtWide(a) => d(a).sqrt().to_bits(),
        FloatOp::SinWide(a) => d(a).sin().to_bits(),
        FloatOp::CosWide(a) => d(a).cos().to_bits(),
        FloatOp::PowWide(a, b) => d(a).powf(d(b)).to_bits(),
        FloatOp::RoundWide(a) => d(a).round().to_bits(),
        FloatOp::TruncWide(a) => d(a) as u64,
        FloatOp::TruncSigned(a) => d(a) as i64 as u64,
        FloatOp::Count(n) => single(n as f32),
        FloatOp::Widen(a) => (s(a) as f64).to_bits(),
        FloatOp::Narrow(a) => single(d(a) as f32),
        FloatOp::AddWide(a, b) => (d(a) + d(b)).to_bits(),
        FloatOp::SubWide(a, b) => (d(a) - d(b)).to_bits(),
        FloatOp::MulWide(a, b) => (d(a) * d(b)).to_bits(),
        FloatOp::DivWide(a, b) => (d(a) / d(b)).to_bits(),
        FloatOp::LnWide(a) => d(a).ln().to_bits(),
        FloatOp::ExpWide(a) => d(a).exp().to_bits(),
        FloatOp::CountWide(n) => (n as f64).to_bits(),
    }
}

fn tok(out: &mut Vec<u8>, t: &str) {
    out.extend_from_slice(t.as_bytes());
    out.push(b' ');
}

fn i32b(out: &mut Vec<u8>, v: i32) {
    out.push(4);
    out.extend_from_slice(&v.to_le_bytes());
}

fn u32b(out: &mut Vec<u8>, v: u32) {
    out.push((-4i8) as u8);
    out.extend_from_slice(&v.to_le_bytes());
}

fn ivec(out: &mut Vec<u8>, v: &[i32]) {
    out.push(4);
    out.extend_from_slice(&(v.len() as i32).to_le_bytes());
    for x in v {
        out.extend_from_slice(&x.to_le_bytes());
    }
}

fn floats(v: &[f32]) -> Vec<u32> {
    v.iter().map(|x| x.to_bits()).collect()
}

fn fvec(out: &mut Vec<u8>, v: &[f32]) {
    tok(out, "FV");
    i32b(out, v.len() as i32);
    for x in v {
        out.extend_from_slice(&x.to_le_bytes());
    }
}

fn fmat(out: &mut Vec<u8>, rows: i32, cols: i32, v: &[f32]) {
    tok(out, "FM");
    i32b(out, rows);
    i32b(out, cols);
    for x in v {
        out.extend_from_slice(&x.to_le_bytes());
    }
}

#[test]
fn rejects_a_file_without_the_binary_header() {
    assert!(matches!(KaldiReader::new(b"xx"), Err(KaldiReadError::NotBinary { .. })));
    assert!(matches!(KaldiReader::new(b""), Err(KaldiReadError::NotBinary { .. })));
}

#[test]
fn reads_tokens_and_basic_types() {
    let mut b = vec![0u8, b'B'];
    tok(&mut b, "<Hello>");
    i32b(&mut b, -7);
    b.push(4);
    b.extend_from_slice(&1.5f32.to_le_bytes());

    let mut r = KaldiReader::new(&b).unwrap();
    r.expect("<Hello>").unwrap();
    assert_eq!(r.i32().unwrap(), -7);
    assert_eq!(r.float(&ieee).unwrap(), 1.5f32.to_bits());
    assert!(r.is_empty());
}

#[test]
fn reads_an_integer_vector_whose_count_has_no_size_byte() {
    let mut b = vec![0u8, b'B'];
    b.push(4);
    b.extend_from_slice(&3i32.to_le_bytes());
    for v in [1i32, -2, 300] {
        b.extend_from_slice(&v.to_le_bytes());
    }
    let mut r = KaldiReader::new(&b).unwrap();
    assert_eq!(r.int_vec().unwrap(), vec![1, -2, 300]);
}

#[test]
fn reads_a_float_vector_and_matrix() {
    let mut b = vec![0u8, b'B'];
    fvec(&mut b, &[0.25, -4.0]);
    fmat(&mut b, 2, 3, &[1.0, 2.0, 3.0, 4.0, 5.0, 6.0]);
    let mut r = KaldiReader::new(&b).unwrap();
    assert_eq!(r.vector(&ieee).unwrap(), floats(&[0.25, -4.0]));
    let (rows, cols, data) = r.matrix(&ieee).unwrap();
    assert_eq!((rows, cols), (2, 3));
    assert_eq!(data, floats(&[1.0, 2.0, 3.0, 4.0, 5.0, 6.0]));
}

#[test]
fn a_double_matrix_widens_to_f32() {
    let mut b = vec![0u8, b'B'];
    tok(&mut b, "DM");
    i32b(&mut b, 1);
    i32b(&mut b, 2);
    for v in [1.5f64, -0.5] {
        b.extend_from_slice(&v.to_le_bytes());
    }
    let mut r = KaldiReader::new(&b).unwrap();
    let (_, _, data) = r.matrix(&ieee).unwrap();
    assert_eq!(data, floats(&[1.5, -0.5]));
}

#[test]
fn a_wrong_token_reports_where_it_happened() {
    let mut b = vec![0u8, b'B'];
    tok(&mut b, "<Nope>");
    let mut r = KaldiReader::new(&b).unwrap();
    let err = r.expect("<Yes>").unwrap_err();
    assert!(matches!(err, KaldiReadError::BadToken { offset: 2, .. }));
    assert!(err.to_string().contains("<Nope>"));
}

#[test]
fn accept_leaves_the_cursor_alone_on_a_miss() {
    let mut b = vec![0u8, b'B'];
    tok(&mut b, "<A>");
    let mut r = KaldiReader::new(&b).unwrap();
    assert!(!r.accept("<B>").unwrap());
    assert!(r.accept("<A>").unwrap());
}

#[test]
fn short_files_and_wrong_widths_are_errors() {
    let mut r = KaldiReader::new(&[0, b'B', 4, 1]).unwrap();
    assert!(matches!(r.i32(), Err(KaldiReadError::Eof { .. })));
    let mut r = KaldiReader::new(&[0, b'B', 8, 1, 0, 0, 0]).unwrap();
    assert!(matches!(r.i32(), Err(KaldiReadError::BadWidth { got: 8, .. })));
}

#[test]
fn reads_a_constant_event_map() {
    let mut b = vec![0u8, b'B'];
    tok(&mut b, "CE");
    i32b(&mut b, 12);
    let mut r = KaldiReader::new(&b).unwrap();
    assert!(matches!(read_event_map(&mut r).unwrap(), Some(EventMap::Constant(12))));
}

#[test]
fn reads_a_split_over_two_constants_with_a_const_integer_set_yes_side() {
    let mut b = vec![0u8, b'B'];
    tok(&mut b, "SE");
    i32b(&mut b, -1);
    ivec(&mut b, &[0, 1]);
    tok(&mut b, "{");
    tok(&mut b, "CE");
    i32b(&mut b, 3);
    tok(&mut b, "CE");
    i32b(&mut b, 4);
    tok(&mut b, "}");
    let mut r = KaldiReader::new(&b).unwrap();
    match read_event_map(&mut r).unwrap().unwrap() {
        EventMap::Split { key, yes_set, yes, no } => {
            assert_eq!(key, -1);
            assert_eq!(yes_set, vec![0, 1]);
            assert!(matches!(*yes, EventMap::Constant(3)));
            assert!(matches!(*no, EventMap::Constant(4)));
        }
        _ => panic!("expected a split"),
    }
}

#[test]
fn a_table_keeps_null_children_as_none() {
    let mut b = vec![0u8, b'B'];
    tok(&mut b, "TE");
    i32b(&mut b, 0);
    u32b(&mut b, 2);
    tok(&mut b, "(");
    tok(&mut b, "NULL");
    tok(&mut b, "CE");
    i32b(&mut b, 7);
    tok(&mut b, ")");
    let mut r = KaldiReader::new(&b).unwrap();
    match read_event_map(&mut r).unwrap().unwrap() {
        EventMap::Table { key, table } => {
            assert_eq!(key, 0);
            assert!(table[0].is_none());
            assert!(matches!(table[1].as_deref(), Some(EventMap::Constant(7))));
        }
        _ => panic!("expected a table"),
    }
}

#[test]
fn reads_a_two_phone_topology_and_reattaches_the_phone_lists() {
    let mut b = vec![0u8, b'B'];
    tok(&mut b, "<Topology>");
    ivec(&mut b, &[1, 2]);
    ivec(&mut b, &[-1, 0, 0]);
    i32b(&mut b, 1);
    i32b(&mut b, 2);
    i32b(&mut b, 0);
    i32b(&mut b, 2);
    i32b(&mut b, 0);
    b.push(4);
    b.extend_from_slice(&0.5f32.to_le_bytes());
    i32b(&mut b, 1);
    b.push(4);
    b.extend_from_slice(&0.5f32.to_le_bytes());
    i32b(&mut b, -1);
    i32b(&mut b, 0);
    tok(&mut b, "</Topology>");
    let mut r = KaldiReader::new(&b).unwrap();
    let topo = read_topology(&mut r, &ieee).unwrap();
    assert_eq!(topo.entries.len(), 1);
    assert_eq!(topo.entries[0].phones, vec![1, 2]);
    assert_eq!(topo.entries[0].states.len(), 2);
    let half = 0.5f32.to_bits();
    assert_eq!(topo.entries[0].states[0].transitions, vec![(0, half), (1, half)]);
    assert!(!topo.entries[0].states[1].is_emitting());
}

fn put_gmm(b: &mut Vec<u8>) {
    tok(b, "<DiagGMM>");
    tok(b, "<GCONSTS>");
    fvec(b, &[-1.0]);
    tok(b, "<WEIGHTS>");
    fvec(b, &[1.0]);
    tok(b, "<MEANS_INVVARS>");
    fmat(b, 1, 2, &[0.5, 1.0]);
    tok(b, "<INV_VARS>");
    fmat(b, 1, 2, &[1.0, 2.0]);
    tok(b, "</DiagGMM>");
}

#[test]
fn reads_mixtures_and_models_of_them() {
    let mut b = vec![0u8, b'B'];
    put_gmm(&mut b);
    let mut r = KaldiReader::new(&b).unwrap();
    let g = read_diag_gmm(&mut r, &ieee).unwrap();
    assert_eq!((g.num_gauss(), g.dim()), (1, 2));
    assert_eq!(g.inv_vars.rows[0], floats(&[1.0, 2.0]));

    let mut b = vec![0u8, b'B'];
    tok(&mut b, "<DIMENSION>");
    i32b(&mut b, 2);
    tok(&mut b, "<NUMPDFS>");
    i32b(&mut b, 2);
    put_gmm(&mut b);
    put_gmm(&mut b);
    let mut r = KaldiReader::new(&b).unwrap();
    assert_eq!(read_am_diag_gmm(&mut r, &ieee).unwrap().num_pdfs(), 2);
}

#[test]
fn reads_trees_and_matrix_files() {
    let mut b = vec![0u8, b'B'];
    tok(&mut b, "ContextDependency");
    i32b(&mut b, 1);
    i32b(&mut b, 0);
    tok(&mut b, "ToPdf");
    tok(&mut b, "CE");
    i32b(&mut b, 4);
    tok(&mut b, "EndContextDependency");
    let mut r = KaldiReader::new(&b).unwrap();
    let ctx = read_context_dependency(&mut r).unwrap();
    assert_eq!((ctx.n, ctx.p), (1, 0));
    assert_eq!(ctx.compute(&[9], 0), Some(4));

    let mut b = vec![0u8, b'B'];
    fmat(&mut b, 1, 2, &[3.0, 4.0]);
    let m = read_matrix_file(&b, &ieee).unwrap();
    assert_eq!(m.rows, vec![floats(&[3.0, 4.0])]);
}

fn put_tree(b: &mut Vec<u8>) {
    tok(b, "TE");
    i32b(b, -1);
    u32b(b, 2);
    tok(b, "(");
    tok(b, "NULL");
    tok(b, "SE");
    i32b(b, 0);
    ivec(b, &[1, 3]);
    tok(b, "{");
    tok(b, "CE");
    i32b(b, 5);
    tok(b, "CE");
    i32b(b, 6);
    tok(b, "}");
    tok(b, ")");
}

#[test]
fn trees_are_read_with_and_without_lengths() {
    for with_lengths in [false, true] {
        let mut b = vec![0u8, b'B'];
        tok(&mut b, "ContextDependency");
        i32b(&mut b, 3);
        i32b(&mut b, 1);
        if with_lengths {
            tok(&mut b, "ToLength");
            put_tree(&mut b);
        }
        tok(&mut b, "ToPdf");
        put_tree(&mut b);
        tok(&mut b, "EndContextDependency");
        tok(&mut b, "<Next>");
        let mut r = KaldiReader::new(&b).unwrap();
        let ctx = read_context_dependency(&mut r).unwrap();
        assert_eq!((ctx.n, ctx.p), (3, 1));
        assert_eq!(ctx.compute(&[3, 9, 9], 1), Some(5));
        assert_eq!(ctx.compute(&[2, 9, 9], 1), Some(6));
        assert_eq!(ctx.compute(&[2, 9, 9], 0), None);
        r.expect("<Next>").unwrap();
        assert!(r.is_empty());
    }
}

#[test]
fn trees_without_a_root_are_malformed() {
    let mut b = vec![0u8, b'B'];
    tok(&mut b, "ContextDependency");
    i32b(&mut b, 1);
    i32b(&mut b, 0);
    tok(&mut b, "ToPdf");
    tok(&mut b, "NULL");
    tok(&mut b, "EndContextDependency");
    let mut r = KaldiReader::new(&b).unwrap();
    assert!(matches!(read_context_dependency(&mut r), Err(KaldiReadError::Malformed { .. })));
}

#[test]
fn maps_are_read_up_to_their_end() {
    let mut b = vec![0u8, b'B'];
    put_tree(&mut b);
    i32b(&mut b, 77);
    let mut r = KaldiReader::new(&b).unwrap();
    let map = read_event_map(&mut r).unwrap().unwrap();
    assert!(matches!(map, EventMap::Table { key: -1, .. }));
    assert_eq!(r.i32().unwrap(), 77);
}
