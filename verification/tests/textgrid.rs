use viter::float::FloatOp;
use viter::io::ctm::{phone_ctm, word_ctm, words_path_for, write_ctm};
use viter::io::gridtext::{decode_bytes, find_closing_quote, unquote};
use viter::io::numerals::Style;
use viter::io::textgrid::{
    escape_quotes, format_repr, from_alignment, make_tier, num_to_str, round6, Interval,
    IntervalTier, TextGrid,
};
use viter::types::{IntervalAlignment, PhoneInterval, SymbolTable, WordInterval};

fn single(x: f32) -> u64 {
    x.to_bits() as u64
}

fn ieee(op: FloatOp) -> u64 {
    let s = f32::from_bits;
    let d = f64::from_bits;
    match op {
        FloatOp::Add(a, b) => single(s(a) + s(b)),
        FloatOp::Sub(a, b) => single(s(a) - s(b)),
        FloatOp::Mul(a, b) => single(s(a) * s(b)),
        FloatOp::Div(a, b) => single(s(a) / s(b)),
        FloatOp::Ln(a) => single(s(a).ln()),
        FloatOp::Exp(a) => single(s(a).exp()),
        FloatOp::Pow(a, b) => single(s(a).powf(s(b))),
        FloatOp::Sqrt(a) => single(s(a).sqrt()),
        FloatOp::Round(a) => single(s(a).round()),
        FloatOp::Sin(a) => single(s(a).sin()),
        FloatOp::Cos(a) => single(s(a).cos()),
        FloatOp::Trunc(a) => s(a) as u64,
        FloatOp::SqrtWide(a) => d(a).sqrt().to_bits(),
        FloatOp::SinWide(a) => d(a).sin().to_bits(),
        FloatOp::CosWide(a) => d(a).cos().to_bits(),
        FloatOp::PowWide(a, b) => d(a).powf(d(b)).to_bits(),
        FloatOp::RoundWide(a) => d(a).round().to_bits(),
        FloatOp::TruncWide(a) => d(a) as u64,
        FloatOp::TruncSigned(a) => d(a) as i64 as u64,
        FloatOp::Count(n) => single(n as f32),
        FloatOp::Widen(a) => (s(a) as f64).to_bits(),
        FloatOp::Narrow(a) => single(d(a) as f32),
        FloatOp::AddWide(a, b) => (d(a) + d(b)).to_bits(),
        FloatOp::SubWide(a, b) => (d(a) - d(b)).to_bits(),
        FloatOp::MulWide(a, b) => (d(a) * d(b)).to_bits(),
        FloatOp::DivWide(a, b) => (d(a) / d(b)).to_bits(),
        FloatOp::LnWide(a) => d(a).ln().to_bits(),
        FloatOp::ExpWide(a) => d(a).exp().to_bits(),
        FloatOp::CountWide(n) => (n as f64).to_bits(),
    }
}

fn print(x: u64, s: Style) -> String {
    let x = f64::from_bits(x);
    match s {
        Style::Plain => format!("{}", x),
        Style::Scientific => format!("{:e}", x),
        Style::Fixed(n) => format!("{:.*}", n as usize, x),
    }
}

fn read_double(s: String) -> Option<u64> {
    s.parse::<f64>().ok().map(|x| x.to_bits())
}

fn b(x: f64) -> u64 {
    x.to_bits()
}

fn iv(xmin: f64, xmax: f64, text: &str) -> Interval {
    Interval { xmin: b(xmin), xmax: b(xmax), text: text.to_string() }
}

fn tg() -> TextGrid {
    TextGrid {
        xmin: b(0.0),
        xmax: b(1.5),
        tiers: vec![IntervalTier {
            name: "words".to_string(),
            xmin: b(0.0),
            xmax: b(1.5),
            intervals: vec![iv(0.0, 0.5, ""), iv(0.5, 1.5, "hello")],
        }],
    }
}

fn same(a: &TextGrid, z: &TextGrid) {
    assert_eq!(a.xmin, z.xmin);
    assert_eq!(a.xmax, z.xmax);
    assert_eq!(a.tiers.len(), z.tiers.len());
    for (s, t) in a.tiers.iter().zip(z.tiers.iter()) {
        assert_eq!(s.name, t.name);
        assert_eq!(s.xmin, t.xmin);
        assert_eq!(s.xmax, t.xmax);
        assert_eq!(s.intervals.len(), t.intervals.len());
        for (x, y) in s.intervals.iter().zip(t.intervals.iter()) {
            assert_eq!((x.xmin, x.xmax, &x.text), (y.xmin, y.xmax, &y.text));
        }
    }
}

#[test]
fn long_format_bytes() {
    let s = tg().to_string_long(&ieee, &print);
    let expected = [
        "File type = \"ooTextFile\"\n",
        "Object class = \"TextGrid\"\n",
        "\n",
        "xmin = 0 \n",
        "xmax = 1.5 \n",
        "tiers? <exists> \n",
        "size = 1 \n",
        "item []: \n",
        "    item [1]:\n",
        "        class = \"IntervalTier\" \n",
        "        name = \"words\" \n",
        "        xmin = 0 \n",
        "        xmax = 1.5 \n",
        "        intervals: size = 2 \n",
        "        intervals [1]:\n",
        "            xmin = 0 \n",
        "            xmax = 0.5 \n",
        "            text = \"\" \n",
        "        intervals [2]:\n",
        "            xmin = 0.5 \n",
        "            xmax = 1.5 \n",
        "            text = \"hello\" \n",
    ]
    .concat();
    assert_eq!(s, expected);
}

#[test]
fn num_formatting() {
    assert_eq!(num_to_str(b(0.0), &ieee, &print), "0");
    assert_eq!(num_to_str(b(-0.0), &ieee, &print), "0");
    assert_eq!(num_to_str(b(3.0), &ieee, &print), "3");
    assert_eq!(num_to_str(b(1.5), &ieee, &print), "1.5");
    assert_eq!(num_to_str(b(0.3154201182247563), &ieee, &print), "0.3154201182247563");
}

#[test]
fn small_and_large_numbers_are_scientific() {
    assert_eq!(format_repr(b(1.5e-7), &print), "1.5e-07");
    assert_eq!(format_repr(b(0.25), &print), "0.25");
    assert_eq!(format_repr(b(1.5e300), &print), "1.5e+300");
}

#[test]
fn long_roundtrip() {
    let original = tg();
    let parsed =
        TextGrid::from_str(&original.to_string_long(&ieee, &print), &read_double).unwrap();
    same(&parsed, &original);
}

#[test]
fn short_roundtrip() {
    let original = tg();
    let parsed =
        TextGrid::from_str(&original.to_string_short(&ieee, &print), &read_double).unwrap();
    same(&parsed, &original);
}

#[test]
fn quotes_are_escaped_and_unescaped() {
    let mut t = tg();
    t.tiers[0].intervals[1].text = "say \"hi\"".to_string();
    let parsed = TextGrid::from_str(&t.to_string_long(&ieee, &print), &read_double).unwrap();
    assert_eq!(parsed.tiers[0].intervals[1].text, "say \"hi\"");
    let parsed = TextGrid::from_str(&t.to_string_short(&ieee, &print), &read_double).unwrap();
    assert_eq!(parsed.tiers[0].intervals[1].text, "say \"hi\"");
    assert_eq!(escape_quotes("a\"b"), "a\"\"b");
}

#[test]
fn utf16_is_decoded() {
    let s = tg().to_string_long(&ieee, &print);
    let mut bytes = vec![0xFF, 0xFE];
    for u in s.encode_utf16() {
        bytes.extend_from_slice(&u.to_le_bytes());
    }
    assert_eq!(decode_bytes(&bytes), s);
    same(&TextGrid::read(&bytes, &read_double).unwrap(), &tg());
    let mut big = vec![0xFE, 0xFF];
    for u in s.encode_utf16() {
        big.extend_from_slice(&u.to_be_bytes());
    }
    assert_eq!(decode_bytes(&big), s);
}

#[test]
fn marks_and_carriage_returns_are_dropped() {
    let s = tg().to_string_long(&ieee, &print).replace('\n', "\r\n");
    let marked = format!("\u{feff}{}", s);
    same(&TextGrid::from_str(&marked, &read_double).unwrap(), &tg());
    let mut bytes = vec![0xEF, 0xBB, 0xBF];
    bytes.extend_from_slice(s.as_bytes());
    same(&TextGrid::read(&bytes, &read_double).unwrap(), &tg());
}

#[test]
fn labels_may_span_lines() {
    let s = tg().to_string_long(&ieee, &print).replace("\"hello\"", "\"hel\nlo\"");
    let parsed = TextGrid::from_str(&s, &read_double).unwrap();
    assert_eq!(parsed.tiers[0].intervals[1].text, "hel\nlo");
}

fn reread(label: &str) -> Vec<String> {
    let mut t = tg();
    t.tiers[0].intervals[1].text = label.to_string();
    let parsed = TextGrid::from_str(&t.to_string_long(&ieee, &print), &read_double).unwrap();
    parsed.tiers[0].intervals.iter().map(|i| i.text.clone()).collect()
}

#[test]
fn labels_with_lines_are_read_as_written() {
    for label in ["one\ntwo", "a\n\nb", "say \"hi\"\n  \"you\"\"\nend", "x\nintervals [7]: \ny"] {
        assert_eq!(reread(label), vec!["".to_string(), label.to_string()]);
    }
    assert_eq!(reread("one \ntwo")[1], "one\ntwo");
    assert_eq!(reread("one\r\ntwo")[1], "one\ntwo");
    assert_eq!(reread(" one\ntwo ")[1], "one\ntwo");
}

#[test]
fn point_tiers_are_skipped() {
    let s = tg().to_string_long(&ieee, &print).replace("IntervalTier", "TextTier");
    assert_eq!(TextGrid::from_str(&s, &read_double).unwrap().tiers.len(), 0);
    let s = "\"ooTextFile short\"\n0\n1\n<exists>\n2\n\"TextTier\"\n\"p\"\n0\n1\n1\n0.5\n\"x\"\n\"IntervalTier\"\n\"w\"\n0\n1\n1\n0\n1\n\"a\"\n";
    let rows = s.replacen("\"ooTextFile short\"\n", "File type = \"ooTextFile short\"\n", 1);
    let g = TextGrid::from_str(&rows, &read_double).unwrap();
    assert_eq!(g.tiers.len(), 1);
    assert_eq!(g.tiers[0].name, "w");
    assert_eq!(g.tiers[0].intervals[0].text, "a");
}

fn message(s: &str) -> String {
    TextGrid::from_str(s, &read_double).unwrap_err().to_string()
}

#[test]
fn broken_grids_are_errors() {
    let long = tg().to_string_long(&ieee, &print);
    let cut = |n: usize| long.lines().take(n).collect::<Vec<_>>().join("\n");
    let without = |a: &str, z: &str| long.replacen(a, z, 1);
    assert_eq!(message("item [1]:"), "missing xmin");
    assert_eq!(message("item [1]:\nxmin = 0"), "missing xmax");
    assert_eq!(message(&without("\nxmin = 0", "\nxmin = a")), "expected a number, got \"a\"");
    assert_eq!(message(&cut(11)), "tier missing xmin");
    assert_eq!(message(&cut(12)), "tier missing xmax");
    assert_eq!(message(&cut(15)), "interval missing xmin");
    assert_eq!(message(&cut(16)), "interval missing xmax");
    assert_eq!(message(&cut(17)), "missing text");
    assert_eq!(message(&without("hello\"", "hello")), "unterminated text field in TextGrid");
    assert_eq!(message("0\n1\n"), "short TextGrid is truncated");
    assert_eq!(message("0\n1\n<exists>\nmany"), "expected tier count, got \"many\"");
    assert_eq!(
        message("0\n1\n<exists>\n1\n\"IntervalTier\"\n\"w\"\n0\n1\nmany"),
        "expected entry count, got \"many\""
    );
    assert_eq!(
        message("0\n1\n<exists>\n1\n\"IntervalTier\"\n\"w\"\n0\n1"),
        "short TextGrid is truncated"
    );
}

#[test]
fn quotes_of_a_field() {
    let spaces: Vec<char> = viter::scan::SPACES.chars().collect();
    let c = |s: &str| s.chars().collect::<Vec<char>>();
    assert_eq!(unquote(&c(" \"a \"\"b\"\" \" "), &spaces), "a \"b\"");
    assert_eq!(unquote(&c("plain"), &spaces), "plain");
    assert_eq!(find_closing_quote(&c("a\"\"b\" ")), Some(4));
    assert_eq!(find_closing_quote(&c("a\"\"")), None);
}

#[test]
fn from_alignment_fills_gaps() {
    let a = IntervalAlignment {
        utt: "u".to_string(),
        frame_shift_s: 0.01f32.to_bits(),
        phones: vec![
            PhoneInterval { phone: 1, start_frame: 0, end_frame: 10 },
            PhoneInterval { phone: 3, start_frame: 10, end_frame: 30 },
        ],
        words: vec![WordInterval { word: 0, pron: 0, start_frame: 10, end_frame: 30 }],
    };
    let mut st = SymbolTable::new();
    st.add("sil");
    st.add("spn");
    st.add("AH_S");
    let tgrid = from_alignment(&a, &st, &vec!["hello".to_string()], b(0.3), &ieee);

    assert_eq!(tgrid.tiers[0].name, "words");
    assert_eq!(tgrid.tiers[1].name, "phones");
    assert_eq!(tgrid.tiers[0].intervals.len(), 2);
    assert_eq!(tgrid.tiers[0].intervals[0].text, "");
    assert_eq!(tgrid.tiers[0].intervals[1].text, "hello");
    assert_eq!(tgrid.tiers[1].intervals[0].text, "sil");
    assert_eq!(tgrid.tiers[1].intervals[1].text, "AH");
    for tier in &tgrid.tiers {
        assert_eq!(f64::from_bits(tier.intervals.first().unwrap().xmin), 0.0);
        assert!((f64::from_bits(tier.intervals.last().unwrap().xmax) - 0.3).abs() < 1e-9);
        for w in tier.intervals.windows(2) {
            assert_eq!(w[0].xmax, w[1].xmin);
        }
    }
}

#[test]
fn tiers_have_no_gaps_or_overlaps() {
    let t = make_tier("t", vec![iv(0.2, 0.5, "a"), iv(0.4, 0.6, "b")], b(1.0));
    let got: Vec<(f64, f64, &str)> = t
        .intervals
        .iter()
        .map(|i| (f64::from_bits(i.xmin), f64::from_bits(i.xmax), i.text.as_str()))
        .collect();
    assert_eq!(
        got,
        vec![(0.0, 0.2, ""), (0.2, 0.5, "a"), (0.5, 0.6, "b"), (0.6, 1.0, "")]
    );
    assert!(tg().tier("words").is_some());
    assert!(tg().tier("other").is_none());
    assert_eq!(f64::from_bits(round6(b(0.1234567), &ieee)), 0.123457);
}

fn fixture() -> (IntervalAlignment, SymbolTable, Vec<String>) {
    let mut st = SymbolTable::new();
    st.add("sil");
    st.add("spn");
    let hh = st.add("HH_B");
    let ow = st.add("OW_E");
    let ali = IntervalAlignment {
        utt: "utt1".to_string(),
        frame_shift_s: 0.01f32.to_bits(),
        phones: vec![
            PhoneInterval { phone: 1, start_frame: 0, end_frame: 10 },
            PhoneInterval { phone: hh, start_frame: 10, end_frame: 25 },
            PhoneInterval { phone: ow, start_frame: 25, end_frame: 40 },
        ],
        words: vec![WordInterval { word: 0, pron: 0, start_frame: 10, end_frame: 40 }],
    };
    (ali, st, vec!["hello".to_string()])
}

#[test]
fn phone_rows_are_untagged_kaldi_format() {
    let (ali, st, _) = fixture();
    let s = phone_ctm(&ali, &st, &ieee, &print);
    assert_eq!(s, "utt1 1 0.00 0.10 sil\nutt1 1 0.10 0.15 HH\nutt1 1 0.25 0.15 OW\n");
}

#[test]
fn word_rows() {
    let (ali, _, words) = fixture();
    assert_eq!(word_ctm(&ali, &words, &ieee, &print), "utt1 1 0.10 0.30 hello\n");
}

#[test]
fn writes_both_files() {
    let (ali, st, words) = fixture();
    let (phones, w) = write_ctm(&vec![(ali, words)], &st, &ieee, &print);
    assert!(phones.contains("HH"));
    assert!(!phones.contains("HH_B"));
    assert!(w.contains("hello"));
    assert_eq!(words_path_for("out/aligned.ctm"), "out/aligned.words.ctm");
}

#[test]
fn words_go_next_to_paths_without_a_name() {
    assert_eq!(words_path_for(".."), "alignment.words.ctm");
    assert_eq!(words_path_for("out/.."), "out/alignment.words.ctm");
    assert_eq!(words_path_for("out/a"), "out/a.words.ctm");
    assert_eq!(words_path_for("a.txt"), "a.words.txt");
    assert_eq!(words_path_for("x//y/a.ctm/"), "x//y/a.words.ctm");
    assert_eq!(words_path_for("/a.ctm"), "/a.words.ctm");
    assert_eq!(words_path_for("."), "alignment.words.ctm");
    assert!(words_path_for("").ends_with("alignment.words.ctm"));
    assert!(words_path_for("/").ends_with("alignment.words.ctm"));
}

#[test]
fn utf8_mark_is_left_out() {
    let mut bytes = vec![0xEF, 0xBB, 0xBF];
    bytes.extend_from_slice("File é".as_bytes());
    assert_eq!(decode_bytes(&bytes), "File é");
}

#[test]
fn plain_numbers_and_labels_are_kept() {
    let mut t = tg();
    t.tiers[0].name = "say \"item\"".to_string();
    t.tiers[0].intervals[1].text = "\"\" a \"".to_string();
    for x in [0.1, 1e-7, -2.5, 123456789.25, 9007199254740991.0, 9223372036854775808.0, -3.0] {
        t.tiers[0].intervals[0].xmin = b(x);
        t.xmax = b(x);
        let long = t.to_string_long(&ieee, &print);
        same(&TextGrid::from_str(&long, &read_double).unwrap(), &t);
        let short = t.to_string_short(&ieee, &print);
        same(&TextGrid::from_str(&short, &read_double).unwrap(), &t);
    }
}
