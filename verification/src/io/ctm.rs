//! Alignments as CTM files: a line per phone or word, with its start and its duration in seconds.

use vstd::prelude::*;
use vstd::slice::slice_subrange;
use vstd::string::StringExecFns;

use crate::float::{eval_wide, is_evaluator, wide_value, FloatOp};
use crate::io::files::{
    bare, bare_keeps_some, extension, extension_of, find_bare, stem_or, stem_or_else, tidied, tidy,
};
use crate::io::numerals::{is_printer, show, shown, Style};
use crate::scan::{find_last, last_in};
use crate::text::{chars_of, string_of};
use crate::types::{
    untag_phone, untagged, IntervalAlignment, PhoneInterval, SymbolTable, WordInterval,
};

verus! {

/// How many digits times have after the point.
pub const TIME_DECIMALS: u32 = 2;

/// So many frames in seconds, as double-precision bits.
pub open spec fn seconds<F: Fn(FloatOp) -> u64>(frames: int, shift: u32, f: F) -> u64 {
    wide_value(
        f,
        FloatOp::MulWide(
            wide_value(f, FloatOp::CountWide(frames as u64)),
            wide_value(f, FloatOp::Widen(shift)),
        ),
    )
}

/// A line: the utterance, the channel, the start, the duration, and the label.
pub open spec fn ctm_row<P: Fn(u64, Style) -> String>(
    utt: Seq<char>,
    start: u64,
    dur: u64,
    label: Seq<char>,
    p: P,
) -> Seq<char> {
    utt + " 1 "@ + shown(p, start, Style::Fixed(TIME_DECIMALS)) + " "@ + shown(
        p,
        dur,
        Style::Fixed(TIME_DECIMALS),
    ) + " "@ + label + "\n"@
}

fn write_row<P: Fn(u64, Style) -> String>(
    out: &mut String,
    utt: &str,
    start: u64,
    dur: u64,
    label: &str,
    p: &P,
)
    requires
        is_printer(*p),
    ensures
        final(out)@ == old(out)@ + ctm_row(utt@, start, dur, label@, *p),
{
    let ghost before = out@;
    let a = show(p, start, Style::Fixed(TIME_DECIMALS));
    let b = show(p, dur, Style::Fixed(TIME_DECIMALS));
    out.append(utt);
    out.append(" 1 ");
    out.append(a.as_str());
    out.append(" ");
    out.append(b.as_str());
    out.append(" ");
    out.append(label);
    out.append("\n");
    assert(out@ =~= before + ctm_row(utt@, start, dur, label@, *p));
}

/// The lines of the first `n` phones, without their positions.
pub open spec fn phone_rows<F: Fn(FloatOp) -> u64, P: Fn(u64, Style) -> String>(
    utt: Seq<char>,
    shift: u32,
    phones: Seq<PhoneInterval>,
    table: Seq<Seq<char>>,
    n: int,
    f: F,
    p: P,
) -> Seq<char>
    decreases n,
{
    if n <= 0 {
        seq![]
    } else {
        let iv = phones[n - 1];
        phone_rows(utt, shift, phones, table, n - 1, f, p) + ctm_row(
            utt,
            seconds(iv.start_frame as int, shift, f),
            seconds(iv.end_frame - iv.start_frame, shift, f),
            untagged(table[iv.phone as int]),
            p,
        )
    }
}

/// The lines of the phones of an utterance.
pub fn phone_ctm<F: Fn(FloatOp) -> u64, P: Fn(u64, Style) -> String>(
    ali: &IntervalAlignment,
    phones: &SymbolTable,
    f: &F,
    p: &P,
) -> (r: String)
    requires
        is_evaluator(*f),
        is_printer(*p),
        forall|i: int|
            0 <= i < ali.phones@.len() ==> (#[trigger] ali.phones@[i]).phone < phones@.len()
                && ali.phones@[i].start_frame <= ali.phones@[i].end_frame,
    ensures
        r@ == phone_rows(
            ali.utt@,
            ali.frame_shift_s,
            ali.phones@,
            phones@,
            ali.phones@.len() as int,
            *f,
            *p,
        ),
{
    let shift: u64 = eval_wide(f, FloatOp::Widen(ali.frame_shift_s));
    let mut out = String::new();
    assert(out@ =~= seq![]);
    let mut i: usize = 0;
    while i < ali.phones.len()
        invariant
            is_evaluator(*f),
            is_printer(*p),
            forall|i: int|
                0 <= i < ali.phones@.len() ==> (#[trigger] ali.phones@[i]).phone < phones@.len()
                    && ali.phones@[i].start_frame <= ali.phones@[i].end_frame,
            shift == wide_value(*f, FloatOp::Widen(ali.frame_shift_s)),
            i <= ali.phones@.len(),
            out@ == phone_rows(
                ali.utt@,
                ali.frame_shift_s,
                ali.phones@,
                phones@,
                i as int,
                *f,
                *p,
            ),
        decreases ali.phones.len() - i,
    {
        let iv: PhoneInterval = ali.phones[i];
        assert(ali.phones@[i as int].phone < phones@.len());
        let start: u64 = eval_wide(
            f,
            FloatOp::MulWide(eval_wide(f, FloatOp::CountWide(iv.start_frame as u64)), shift),
        );
        let frames: u64 = (iv.end_frame - iv.start_frame) as u64;
        let dur: u64 = eval_wide(
            f,
            FloatOp::MulWide(eval_wide(f, FloatOp::CountWide(frames)), shift),
        );
        let label = untag_phone(phones.sym(iv.phone));
        write_row(&mut out, ali.utt.as_str(), start, dur, label.as_str(), p);
        i += 1;
    }
    out
}

/// The lines of the first `n` words. A word without a text, or with an empty one, has none.
pub open spec fn word_rows<F: Fn(FloatOp) -> u64, P: Fn(u64, Style) -> String>(
    utt: Seq<char>,
    shift: u32,
    ivs: Seq<WordInterval>,
    words: Seq<String>,
    n: int,
    f: F,
    p: P,
) -> Seq<char>
    decreases n,
{
    if n <= 0 {
        seq![]
    } else {
        let before = word_rows(utt, shift, ivs, words, n - 1, f, p);
        let iv = ivs[n - 1];
        if iv.word < words.len() && words[iv.word as int]@.len() > 0 {
            before + ctm_row(
                utt,
                seconds(iv.start_frame as int, shift, f),
                seconds(iv.end_frame - iv.start_frame, shift, f),
                words[iv.word as int]@,
                p,
            )
        } else {
            before
        }
    }
}

/// The lines of the words of an utterance.
pub fn word_ctm<F: Fn(FloatOp) -> u64, P: Fn(u64, Style) -> String>(
    ali: &IntervalAlignment,
    words: &Vec<String>,
    f: &F,
    p: &P,
) -> (r: String)
    requires
        is_evaluator(*f),
        is_printer(*p),
        forall|i: int|
            0 <= i < ali.words@.len() ==> (#[trigger] ali.words@[i]).start_frame
                <= ali.words@[i].end_frame,
    ensures
        r@ == word_rows(
            ali.utt@,
            ali.frame_shift_s,
            ali.words@,
            words@,
            ali.words@.len() as int,
            *f,
            *p,
        ),
{
    let shift: u64 = eval_wide(f, FloatOp::Widen(ali.frame_shift_s));
    let mut out = String::new();
    assert(out@ =~= seq![]);
    let mut i: usize = 0;
    while i < ali.words.len()
        invariant
            is_evaluator(*f),
            is_printer(*p),
            forall|i: int|
                0 <= i < ali.words@.len() ==> (#[trigger] ali.words@[i]).start_frame
                    <= ali.words@[i].end_frame,
            shift == wide_value(*f, FloatOp::Widen(ali.frame_shift_s)),
            i <= ali.words@.len(),
            out@ == word_rows(
                ali.utt@,
                ali.frame_shift_s,
                ali.words@,
                words@,
                i as int,
                *f,
                *p,
            ),
        decreases ali.words.len() - i,
    {
        let iv: WordInterval = ali.words[i];
        assert(ali.words@[i as int].start_frame <= ali.words@[i as int].end_frame);
        let w: usize = iv.word as usize;
        if w < words.len() && words[w].as_str().unicode_len() > 0 {
            let start: u64 = eval_wide(
                f,
                FloatOp::MulWide(eval_wide(f, FloatOp::CountWide(iv.start_frame as u64)), shift),
            );
            let frames: u64 = (iv.end_frame - iv.start_frame) as u64;
            let dur: u64 = eval_wide(
                f,
                FloatOp::MulWide(eval_wide(f, FloatOp::CountWide(frames)), shift),
            );
            write_row(&mut out, ali.utt.as_str(), start, dur, words[w].as_str(), p);
        }
        i += 1;
    }
    out
}

/// The directory of a path, with a slash at its end; nothing if the path has one part, and the
/// current directory if it has none.
pub open spec fn directory_in(path: Seq<char>) -> Seq<char> {
    let b = bare(path);
    let k = last_in(b, seq!['/']);
    if b.len() == 0 || b == "/"@ {
        "./"@
    } else if k < 0 {
        ""@
    } else {
        let dir = bare(b.take(k + 1));
        if dir.last() == '/' {
            dir
        } else {
            dir + "/"@
        }
    }
}

/// Where the lines of the words go, next to those of the phones: `.words` before the extension. A
/// path that ends in no name stands for `alignment`.
pub open spec fn words_path(path: Seq<char>) -> Seq<char> {
    directory_in(path) + stem_or(path, "alignment"@) + ".words."@ + (match extension_of(
        tidied(path),
    ) {
        Some(e) => e,
        None => "ctm"@,
    })
}

fn find_directory(path: &[char]) -> (r: String)
    ensures
        r@ == directory_in(path@),
{
    proof {
        reveal_strlit("");
        reveal_strlit("/");
    }
    let b = find_bare(path);
    let only_root: bool = b.len() == 1 && b[0] == '/';
    assert(only_root == (b@ =~= "/"@));
    if b.len() == 0 || only_root {
        return String::from_str("./");
    }
    let mut slash: Vec<char> = Vec::new();
    slash.push('/');
    assert(slash@ =~= seq!['/']);
    match find_last(b, slash.as_slice()) {
        Some(k) => {
            assert(b@.subrange(0, k + 1) =~= b@.take(k + 1));
            let dir = find_bare(slice_subrange(b, 0, k + 1));
            proof {
                bare_keeps_some(b@.take(k + 1));
            }
            let mut out = string_of(dir);
            if dir[dir.len() - 1] != '/' {
                out.append("/");
            }
            out
        },
        None => String::from_str(""),
    }
}

/// Where the lines of the words go.
pub fn words_path_for(path: &str) -> (r: String)
    ensures
        r@ == words_path(path@),
{
    let cs = chars_of(path);
    let t = tidy(cs.as_slice());
    let mut out = find_directory(cs.as_slice());
    out.append(stem_or_else(path, "alignment").as_str());
    out.append(".words.");
    match extension(t.as_slice()) {
        Some(e) => {
            out.append(string_of(e).as_str());
        },
        None => {
            out.append("ctm");
        },
    }
    out
}

/// The phone lines of the first `n` alignments, and their word lines.
pub open spec fn all_rows<F: Fn(FloatOp) -> u64, P: Fn(u64, Style) -> String>(
    alis: Seq<(IntervalAlignment, Vec<String>)>,
    table: Seq<Seq<char>>,
    n: int,
    f: F,
    p: P,
) -> (Seq<char>, Seq<char>)
    decreases n,
{
    if n <= 0 {
        (seq![], seq![])
    } else {
        let (a, b) = all_rows(alis, table, n - 1, f, p);
        let (ali, words) = alis[n - 1];
        (
            a + phone_rows(
                ali.utt@,
                ali.frame_shift_s,
                ali.phones@,
                table,
                ali.phones@.len() as int,
                f,
                p,
            ),
            b + word_rows(
                ali.utt@,
                ali.frame_shift_s,
                ali.words@,
                words@,
                ali.words@.len() as int,
                f,
                p,
            ),
        )
    }
}

/// The alignment can be written: its phones are in the table, and no interval ends before it starts.
pub open spec fn can_write(ali: IntervalAlignment, table: Seq<Seq<char>>) -> bool {
    &&& forall|i: int|
        0 <= i < ali.phones@.len() ==> (#[trigger] ali.phones@[i]).phone < table.len()
            && ali.phones@[i].start_frame <= ali.phones@[i].end_frame
    &&& forall|i: int|
        0 <= i < ali.words@.len() ==> (#[trigger] ali.words@[i]).start_frame
            <= ali.words@[i].end_frame
}

/// The two CTM files of alignments: that of the phones and that of the words.
pub fn write_ctm<F: Fn(FloatOp) -> u64, P: Fn(u64, Style) -> String>(
    alis: &Vec<(IntervalAlignment, Vec<String>)>,
    phones: &SymbolTable,
    f: &F,
    p: &P,
) -> (r: (String, String))
    requires
        is_evaluator(*f),
        is_printer(*p),
        forall|i: int| 0 <= i < alis@.len() ==> can_write((#[trigger] alis@[i]).0, phones@),
    ensures
        (r.0@, r.1@) == all_rows(alis@, phones@, alis@.len() as int, *f, *p),
{
    let mut a = String::new();
    let mut b = String::new();
    assert(a@ =~= seq![]);
    assert(b@ =~= seq![]);
    let mut i: usize = 0;
    while i < alis.len()
        invariant
            is_evaluator(*f),
            is_printer(*p),
            forall|i: int| 0 <= i < alis@.len() ==> can_write((#[trigger] alis@[i]).0, phones@),
            i <= alis@.len(),
            (a@, b@) == all_rows(alis@, phones@, i as int, *f, *p),
        decreases alis.len() - i,
    {
        assert(can_write(alis@[i as int].0, phones@));
        let x = phone_ctm(&alis[i].0, phones, f, p);
        let y = word_ctm(&alis[i].0, &alis[i].1, f, p);
        a.append(x.as_str());
        b.append(y.as_str());
        i += 1;
    }
    (a, b)
}

} // verus!
