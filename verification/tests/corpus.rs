use viter::io::assemble::{scan, single, Recording};
use viter::io::corpus::{
    remap, split_phone_words, untag, Corpus, CorpusBuilder, CorpusOptions, SpeakerSource,
};
use viter::io::dict::{is_prob_field, Dictionary};
use viter::io::files::{
    ext_candidates, has_ext, read_transcript, speaker_name, utt_id, AUDIO_EXTS, TRANSCRIPT_EXTS,
};
use viter::io::names::{add_name, count_name, Counted};
use viter::io::textgrid::{Interval, IntervalTier, TextGrid};
use viter::io::words::{lower, normalize_dict_key, normalize_word, strip_variant_suffix};
use viter::types::{SymbolTable, Utterance};

fn read_single(s: String) -> Option<u32> {
    s.parse::<f32>().ok().map(|x| x.to_bits())
}

fn bits(x: f32) -> Option<u32> {
    Some(x.to_bits())
}

fn chars(s: &str) -> Vec<char> {
    s.chars().collect()
}

fn file(audio: &str, text: &str) -> Recording {
    Recording { audio: audio.to_string(), text: Some(text.to_string()) }
}

fn syms<'a>(c: &'a Corpus, u: &Utterance, w: usize, pron: usize) -> Vec<&'a str> {
    u.prons[w][pron].phones.iter().map(|p| c.phones.sym(*p)).collect()
}

#[test]
fn word_normalization() {
    assert_eq!(normalize_word("Hello,"), "hello");
    assert_eq!(normalize_word("\"quoted\"."), "quoted");
    assert_eq!(normalize_word("don't"), "don't");
    assert_eq!(normalize_word("..."), "");
    assert_eq!(normalize_word("O'NEILL"), "o'neill");
}

#[test]
fn scan_with_dictionary_tags_positions() {
    let dict = Dictionary::load(
        "d.txt",
        b"HELLO HH AH L OW\nHELLO(2) HH AH L\nA AH\n",
        &read_single,
    )
    .unwrap();
    let opts = CorpusOptions { dictionary: Some("d.txt".to_string()), ..Default::default() };
    let files = vec![file("/root/spk1/a.wav", "hello a xyzzy")];
    let c = scan("/root", &files, opts, Some(dict)).unwrap();
    assert_eq!(c.utts.len(), 1);
    assert_eq!(c.speakers, vec!["spk1".to_string()]);
    assert_eq!(c.phones.sym(1), "sil");
    assert_eq!(c.phones.sym(2), "spn");
    assert_eq!(c.silence_phones, vec![1, 2]);

    let u = &c.utts[0];
    assert_eq!(u.id, "spk1/a");
    assert_eq!(u.words, vec!["hello", "a", "xyzzy"]);
    assert_eq!(u.prons[0].len(), 2);
    assert_eq!(syms(&c, u, 0, 0), vec!["HH_B", "AH_I", "L_I", "OW_E"]);
    assert_eq!(syms(&c, u, 0, 1), vec!["HH_B", "AH_I", "L_E"]);
    assert_eq!(syms(&c, u, 1, 0), vec!["AH_S"]);
    assert_eq!(u.prons[2].len(), 1);
    assert_eq!(syms(&c, u, 2, 0), vec!["spn"]);
    assert_eq!(u.prons[2][0].prob, None);
    assert_eq!(c.oov_words.len(), 1);
    assert_eq!(c.oov_words[0].name, "xyzzy");
    assert_eq!(c.oov_words[0].count, 1);
}

#[test]
fn scan_phoneme_string_mode() {
    let opts = CorpusOptions { speaker_from: SpeakerSource::Single, ..Default::default() };
    let files = vec![file("/r/b.wav", "AA B sil")];
    let c = scan("/r", &files, opts, None).unwrap();
    let u = &c.utts[0];
    assert_eq!(u.prons.len(), 3);
    assert!(u.prons.iter().all(|p| p.len() == 1));
    assert_eq!(syms(&c, u, 0, 0), vec!["AA_S"]);
    assert_eq!(syms(&c, u, 2, 0), vec!["sil"]);
    assert_eq!(u.speaker, "speaker");
}

fn words(v: &[&[&str]]) -> Vec<Vec<String>> {
    v.iter().map(|w| w.iter().map(|s| s.to_string()).collect()).collect()
}

#[test]
fn phone_words_split_on_pipe() {
    assert_eq!(
        split_phone_words("HH AH | L OW | B"),
        words(&[&["HH", "AH"], &["L", "OW"], &["B"]])
    );
}

#[test]
fn phone_words_split_on_double_space() {
    assert_eq!(
        split_phone_words("HH AH  L OW   B"),
        words(&[&["HH", "AH"], &["L", "OW"], &["B"]])
    );
    assert_eq!(split_phone_words("HH AH L"), words(&[&["HH"], &["AH"], &["L"]]));
}

#[test]
fn phone_words_split_on_tabs_and_lines() {
    assert_eq!(split_phone_words("HH AH\tL"), words(&[&["HH", "AH"], &["L"]]));
    assert_eq!(split_phone_words("A B\nC D"), words(&[&["A"], &["B"], &["C"], &["D"]]));
    assert_eq!(split_phone_words("A B | C\nD E"), words(&[&["A", "B"], &["C"], &["D", "E"]]));
    assert_eq!(split_phone_words("A B  "), words(&[&["A", "B"]]));
    assert_eq!(split_phone_words("A B |"), words(&[&["A", "B"]]));
    assert_eq!(split_phone_words("\tA B"), words(&[&["A", "B"]]));
    assert_eq!(split_phone_words("A|B C"), words(&[&["A|B"], &["C"]]));
    assert_eq!(split_phone_words(""), words(&[]));
    assert_eq!(split_phone_words(" | | "), words(&[]));
}

#[test]
fn scan_phoneme_string_with_separators() {
    let opts = CorpusOptions { speaker_from: SpeakerSource::Single, ..Default::default() };
    let files = vec![file("/r/p.wav", "HH AH | L OW  B")];
    let c = scan("/r", &files, opts, None).unwrap();
    let u = &c.utts[0];
    assert_eq!(u.words, vec!["HH AH", "L OW", "B"]);
    assert_eq!(syms(&c, u, 0, 0), vec!["HH_B", "AH_E"]);
    assert_eq!(syms(&c, u, 1, 0), vec!["L_B", "OW_E"]);
    assert_eq!(syms(&c, u, 2, 0), vec!["B_S"]);
}

#[test]
fn remap_reports_missing_phones() {
    let opts = CorpusOptions { position_dependent: false, ..Default::default() };
    let files = vec![file("/r/c.wav", "AA")];
    let mut c = scan("/r", &files, opts, None).unwrap();

    let mut model = SymbolTable::new();
    model.add("sil");
    model.add("spn");
    model.add("ZZ");
    let e = remap(&mut c, &model).unwrap_err();
    assert_eq!(e.to_string(), "phones missing from the model's symbol table: AA");

    model.add("AA");
    remap(&mut c, &model).unwrap();
    assert_eq!(c.phones.sym(c.utts[0].prons[0][0].phones[0]), "AA");
    assert_eq!(c.utts[0].prons[0][0].phones[0], 4);
    assert_eq!(c.silence_phones, vec![1, 2]);
}

#[test]
fn untag_roundtrip() {
    assert_eq!(untag("AH_B"), "AH");
    assert_eq!(untag("sil"), "sil");
}

#[test]
fn variant_suffix_and_prob_fields() {
    assert_eq!(strip_variant_suffix("WORD(2)"), "WORD");
    assert_eq!(strip_variant_suffix("WORD"), "WORD");
    assert_eq!(strip_variant_suffix("()"), "()");
    assert!(is_prob_field(&chars("0.5")));
    assert!(is_prob_field(&chars("1.64")));
    assert!(!is_prob_field(&chars("1")));
    assert!(!is_prob_field(&chars("AH0")));
    assert!(!is_prob_field(&chars("0.")));
}

#[test]
fn dictionary_keeps_all_pronunciations() {
    let text = b"HELLO\tHH AH0 L OW1\nHELLO(2) HH EH0 L OW1\nHELLO(3) HH AH0 L OW1\nWORLD 1.0 0.5 W ER1 L D\n";
    let dict = Dictionary::load("d.txt", text, &read_single).unwrap();
    let hello = dict.lookup("hello").unwrap();
    assert_eq!(hello.len(), 2);
    assert_eq!(hello[0].phones, ["HH", "AH0", "L", "OW1"]);
    assert_eq!(hello[1].phones, ["HH", "EH0", "L", "OW1"]);
    assert_eq!(hello[0].prob, None);

    let world = dict.lookup("World!").unwrap();
    assert_eq!(world.len(), 1);
    assert_eq!(world[0].phones, ["W", "ER1", "L", "D"]);
    assert_eq!(world[0].prob, bits(1.0));
    assert_eq!(world[0].silence_after_prob, bits(0.5));
    assert_eq!(world[0].silence_before_correction, None);

    assert!(dict.lookup("nope").is_none());
    assert!(dict.phones().contains(&"ER1".to_string()));
    assert!(dict.phones().contains(&"EH0".to_string()));
}

#[test]
fn dictionary_four_column_probabilities() {
    let text = "a\u{26a}\t0.99\t0.08\t1.64\t0.79\ta\u{26a}\n<unk>\t0.99\t0.22\t1.0\t1.0\tspn\n";
    let dict = Dictionary::load("d.txt", text.as_bytes(), &read_single).unwrap();
    let e = &dict.lookup("a\u{26a}").unwrap()[0];
    assert_eq!(e.phones, ["a\u{26a}"]);
    assert_eq!(e.prob, bits(0.99));
    assert_eq!(e.silence_after_prob, bits(0.08));
    assert_eq!(e.silence_before_correction, bits(1.64));
    assert_eq!(e.non_silence_before_correction, bits(0.79));
    assert_eq!(dict.lookup("<unk>").unwrap()[0].phones, ["spn"]);
}

#[test]
fn probabilities_leave_a_phone() {
    let text = b"four 0.1 0.2 0.3 0.4\ntwo 0.1 0.2\none 0.5\nthree 0.1 0.2 0.3 AA\nall 0.1 0.2 0.3 0.4 AA\n";
    let dict = Dictionary::load("d.txt", text, &read_single).unwrap();
    let four = &dict.lookup("four").unwrap()[0];
    assert_eq!(four.prob, bits(0.1));
    assert_eq!(four.silence_after_prob, bits(0.2));
    assert_eq!(four.silence_before_correction, None);
    assert_eq!(four.non_silence_before_correction, None);
    assert_eq!(four.phones, ["0.3", "0.4"]);
    let two = &dict.lookup("two").unwrap()[0];
    assert_eq!((two.prob, two.silence_after_prob), (bits(0.1), None));
    assert_eq!(two.phones, ["0.2"]);
    let one = &dict.lookup("one").unwrap()[0];
    assert_eq!(one.prob, None);
    assert_eq!(one.phones, ["0.5"]);
    let three = &dict.lookup("three").unwrap()[0];
    assert_eq!((three.prob, three.silence_after_prob), (bits(0.1), bits(0.2)));
    assert_eq!(three.phones, ["0.3", "AA"]);
    let all = &dict.lookup("all").unwrap()[0];
    assert_eq!(all.non_silence_before_correction, bits(0.4));
    assert_eq!(all.phones, ["AA"]);
}

#[test]
fn dictionary_with_the_mark_of_its_encoding() {
    let text = "\u{feff}one W AH N\n";
    let dict = Dictionary::load("d.txt", text.as_bytes(), &read_single).unwrap();
    assert_eq!(dict.lookup("one").unwrap()[0].phones, ["W", "AH", "N"]);
}

#[test]
fn empty_dictionary_is_an_error() {
    let e = Dictionary::load("none.txt", b"\n\nWORD\n", &read_single).unwrap_err();
    assert_eq!(e.to_string(), "dictionary none.txt contained no entries");
}

#[test]
fn dictionary_from_entries_leaves_out_blank_ones() {
    let dict = Dictionary::from_entries(vec![
        ("One(2)".to_string(), vec!["W".to_string()]),
        ("...".to_string(), vec!["X".to_string()]),
        ("two".to_string(), vec![]),
    ]);
    assert_eq!(dict.len(), 1);
    assert!(!dict.is_empty());
    assert_eq!(dict.lookup_key("one").unwrap()[0].phones, ["W"]);
    assert_eq!(dict.phones(), vec!["W".to_string()]);
}

#[test]
fn speaker_prefix() {
    let name = speaker_name("/c", "/c/LJ001-0001.wav", &SpeakerSource::Prefix(5));
    assert_eq!(name, "LJ001");
}

#[test]
fn speakers_by_directory() {
    let source = SpeakerSource::ParentDir;
    assert_eq!(speaker_name("/c", "/c/s1/a.wav", &source), "s1");
    assert_eq!(speaker_name("/c", "/c/a.wav", &source), "speaker");
    assert_eq!(speaker_name("/c", "/c/s1/a.wav", &SpeakerSource::Single), "speaker");
}

#[test]
fn ids_are_relative_paths() {
    assert_eq!(utt_id("/c", "/c/s1/a.wav"), "s1/a");
    assert_eq!(utt_id("/c", "/c/a.flac"), "a");
}

#[test]
fn slashes_of_the_root_make_no_difference() {
    let source = SpeakerSource::ParentDir;
    assert_eq!(utt_id("c/", "c/a.wav"), "a");
    assert_eq!(speaker_name("c/", "c/a.wav", &source), "speaker");
    assert_eq!(utt_id("c", "c//a.wav"), "a");
    assert_eq!(utt_id("/x//c//", "/x/c/s/a.wav"), "s/a");
    assert_eq!(speaker_name("/x//c//", "/x/c/s/a.wav", &source), "s");
    assert_eq!(utt_id("/", "/a.wav"), "a");
    assert_eq!(utt_id("/", "/s/a.wav"), "s/a");
    assert_eq!(speaker_name("/", "/s/a.wav", &source), "s");
    assert_eq!(speaker_name("/", "/a.wav", &source), "speaker");
    assert_eq!(utt_id("c", "./c/a.wav"), "./c/a");
    assert_eq!(utt_id("./c", "./c/./a.wav"), "a");
    assert_eq!(utt_id("c", "c/s//a.wav"), "s//a");
    assert_eq!(utt_id("c", "cc/a.wav/"), "cc/a");
    assert_eq!(utt_id("", "x//a.wav"), "x//a");
    assert_eq!(utt_id("c", "c/"), "utt");
    assert_eq!(utt_id("c", "c/s\\a.wav"), "s/a");
    assert_eq!(utt_id("c", "c/.."), "..");
}

#[test]
fn extensions_in_any_case() {
    assert!(has_ext("/c/a.WAV", &AUDIO_EXTS));
    assert!(has_ext("a.mp3", &AUDIO_EXTS));
    assert!(!has_ext("a.txt", &AUDIO_EXTS));
    assert!(has_ext("a.TextGrid", &TRANSCRIPT_EXTS));
    let c = ext_candidates("/c/a.wav", "lab");
    assert!(c.contains(&"/c/a.lab".to_string()));
    assert!(c.contains(&"/c/a.LAB".to_string()));
}

#[test]
fn candidates_replace_the_extension_of_the_name() {
    assert_eq!(ext_candidates("a.wav/", "lab"), ["a.lab", "a.LAB"]);
    assert_eq!(ext_candidates("x//a.wav/./", "lab")[0], "x//a.lab");
    assert_eq!(ext_candidates("a", "lab")[0], "a.lab");
    assert_eq!(ext_candidates(".a", "lab")[0], ".a.lab");
    assert_eq!(ext_candidates("a.b.c", "lab")[0], "a.b.lab");
    assert_eq!(ext_candidates("a.wav", ""), ["a", "a"]);
    for path in ["..", "x/../", "/", "", "."] {
        assert_eq!(ext_candidates(path, "lab"), [path, path]);
    }
    assert_eq!(
        ext_candidates("a.wav", "textgrid"),
        ["a.textgrid", "a.TEXTGRID", "a.TextGrid", "a.Textgrid"]
    );
}

#[test]
fn lower_case_of_letters() {
    assert_eq!(lower("ÄB C"), "äb c");
    assert_eq!(normalize_dict_key("Word(3)"), "word");
}

fn interval(text: &str) -> Interval {
    Interval { xmin: 0, xmax: 0, text: text.to_string() }
}

#[test]
fn transcript_of_a_textgrid_is_its_words() {
    let tier = |name: &str, v: Vec<Interval>| IntervalTier {
        name: name.to_string(),
        xmin: 0,
        xmax: 0,
        intervals: v,
    };
    let tg = TextGrid {
        xmin: 0,
        xmax: 0,
        tiers: vec![tier("words", vec![interval("one"), interval(""), interval("two")])],
    };
    assert_eq!(read_transcript(&tg), Some("one two".to_string()));
    let empty = TextGrid { xmin: 0, xmax: 0, tiers: vec![] };
    assert_eq!(read_transcript(&empty), None);
}

#[test]
fn scan_without_transcripts_is_an_error() {
    let files = vec![Recording { audio: "/r/a.wav".to_string(), text: None }];
    let e = scan("/r", &files, CorpusOptions::default(), None).unwrap_err();
    assert_eq!(
        e.to_string(),
        "no audio/transcript pairs found under /r (looked for [\"wav\", \"flac\", \"mp3\", \"ogg\", \"opus\", \"m4a\", \"aiff\", \"aif\"] with [\"lab\", \"txt\", \"textgrid\"])"
    );
}

#[test]
fn single_file_with_and_without_a_model() {
    let c = single("/x/y/z.wav", "AA B", CorpusOptions::default(), None, None).unwrap();
    assert_eq!(c.utts[0].id, "z");
    assert_eq!(c.utts[0].speaker, "speaker");
    assert_eq!(c.utts[0].words, vec!["AA", "B"]);
    let mut model = SymbolTable::new();
    for s in ["B_S", "AA_S", "spn", "sil"] {
        model.add(s);
    }
    let c = single("z.wav", "AA B", CorpusOptions::default(), None, Some(&model)).unwrap();
    assert_eq!(c.utts[0].prons[0][0].phones, vec![2]);
    assert_eq!(c.utts[0].prons[1][0].phones, vec![1]);
    assert_eq!(c.silence_phones, vec![4, 3]);
    let e = single("z.wav", "AA CC", CorpusOptions::default(), None, Some(&model)).unwrap_err();
    assert_eq!(e.phones, vec!["CC_S".to_string()]);
}

#[test]
fn single_file_without_a_name() {
    for path in ["", "/", "x/.."] {
        let c = single(path, "AA", CorpusOptions::default(), None, None).unwrap();
        assert_eq!(c.utts[0].id, "utt");
        assert_eq!(c.utts[0].audio, path);
    }
}

#[test]
fn utterances_add_speakers_once_and_keep_numbers() {
    let mut b = CorpusBuilder::new(CorpusOptions::default(), None);
    b.push("u1".to_string(), "s".to_string(), "1.wav".to_string(), "AA");
    let first = b.len();
    b.push("u2".to_string(), "s".to_string(), "2.wav".to_string(), "BB AA");
    b.push("u3".to_string(), "t".to_string(), "3.wav".to_string(), " ");
    assert_eq!(first, 1);
    let c = b.finish();
    assert_eq!(c.utts.len(), 2);
    assert_eq!(c.speakers, vec!["s".to_string()]);
    let aa = c.utts[0].prons[0][0].phones[0];
    assert_eq!(c.utts[1].prons[1][0].phones[0], aa);
    for u in &c.utts {
        for w in &u.prons {
            for p in w {
                assert!(p.phones.iter().all(|x| (*x as usize) < c.phones.len()));
            }
        }
    }
}

#[test]
fn names_are_sorted_and_counted() {
    let mut names: Vec<String> = Vec::new();
    for n in ["b", "a", "c", "a"] {
        add_name(&mut names, n);
    }
    assert_eq!(names, vec!["a", "b", "c"]);
    let mut counts: Vec<Counted> = Vec::new();
    for n in ["b", "a", "b"] {
        count_name(&mut counts, n);
    }
    let v: Vec<(&str, usize)> = counts.iter().map(|c| (c.name.as_str(), c.count)).collect();
    assert_eq!(v, vec![("a", 1), ("b", 2)]);
}
