//! The names of files: which are audio, what an utterance is called, and who speaks in it.
//!
//! Paths are texts with `/` between their parts. How many slashes stand between two parts, or at the
//! end, makes no difference to what the parts are; where a part of a path is kept, it is kept as it
//! stands.

use vstd::prelude::*;
use vstd::slice::slice_subrange;
use vstd::string::StringExecFns;

use crate::io::corpus::{join_spaced, spaced, SpeakerSource};
use crate::io::textgrid::{IntervalTier, TextGrid};
use crate::io::words::lowered;
use crate::scan::{
    find_last, last_in, pieces_of, replace, replaced, split_at_each, trim, trimmed, views, SPACES,
};
use crate::text::{chars_of, same_text, string_of};
use crate::types::texts;

verus! {

/// The extensions of audio files.
pub const AUDIO_EXTS: [&'static str; 8] = ["wav", "flac", "mp3", "ogg", "opus", "m4a", "aiff", "aif"];

/// The extensions of transcripts, the preferred ones first.
pub const TRANSCRIPT_EXTS: [&'static str; 3] = ["lab", "txt", "textgrid"];

/// The last part of a path.
pub open spec fn name_part(path: Seq<char>) -> Seq<char> {
    path.skip(last_in(path, seq!['/']) + 1)
}

/// A path from the first `n` of the pieces between its slashes. Empty pieces and points are left out,
/// but for an empty first piece, which is the slash of an absolute path, and a point in front.
pub open spec fn tidied_upto(pieces: Seq<Seq<char>>, n: int) -> Seq<char>
    decreases n,
{
    if n <= 0 {
        seq![]
    } else if n == 1 {
        if pieces[0].len() == 0 && pieces.len() > 1 {
            "/"@
        } else {
            pieces[0]
        }
    } else {
        let before = tidied_upto(pieces, n - 1);
        let piece = pieces[n - 1];
        if piece.len() == 0 || piece == "."@ {
            before
        } else if before.len() == 0 || before.last() == '/' {
            before + piece
        } else {
            before + "/"@ + piece
        }
    }
}

/// A path with single slashes between its parts and none at its end. Two texts stand for the same
/// parts if this is the same for both.
pub open spec fn tidied(path: Seq<char>) -> Seq<char> {
    let pieces = pieces_of(path, "/"@);
    tidied_upto(pieces, pieces.len() as int)
}

/// A part that is the name of a file or directory, and not a way to one.
pub open spec fn is_name(part: Seq<char>) -> bool {
    part.len() > 0 && part != "."@ && part != ".."@
}

/// The directory of a tidy path.
pub open spec fn dir_of(path: Seq<char>) -> Seq<char> {
    let k = last_in(path, seq!['/']);
    if k < 0 {
        seq![]
    } else if k == 0 {
        "/"@
    } else {
        path.take(k)
    }
}

/// A file's name without its extension, or what to take if the path ends in no name.
pub open spec fn stem_or(path: Seq<char>, other: Seq<char>) -> Seq<char> {
    let t = tidied(path);
    if is_name(name_part(t)) {
        stem_of(t)
    } else {
        other
    }
}

/// Where the extension of a file's name starts: at its last point, unless the name starts with it or
/// is the way to the parent.
pub open spec fn dot_place(name: Seq<char>) -> Option<int> {
    let k = last_in(name, seq!['.']);
    if k > 0 && name != ".."@ {
        Some(k)
    } else {
        None
    }
}

/// A file's name without its extension.
pub open spec fn stem_of(path: Seq<char>) -> Seq<char> {
    let name = name_part(path);
    match dot_place(name) {
        Some(k) => name.take(k),
        None => name,
    }
}

/// The extension of a file's name.
pub open spec fn extension_of(path: Seq<char>) -> Option<Seq<char>> {
    let name = name_part(path);
    match dot_place(name) {
        Some(k) => Some(name.skip(k + 1)),
        None => None,
    }
}

/// A path without the extension of its file's name.
pub open spec fn without_extension(path: Seq<char>) -> Seq<char> {
    match dot_place(name_part(path)) {
        Some(k) => path.take(last_in(path, seq!['/']) + 1 + k),
        None => path,
    }
}

fn last_of(cs: &[char], c: char) -> (r: Option<usize>)
    ensures
        match r {
            Some(k) => k == last_in(cs@, seq![c]) && k < cs@.len(),
            None => last_in(cs@, seq![c]) == -1,
        },
{
    let mut set: Vec<char> = Vec::new();
    set.push(c);
    assert(set@ =~= seq![c]);
    find_last(cs, set.as_slice())
}

/// A path with single slashes between its parts and none at its end.
pub fn tidy(path: &[char]) -> (r: Vec<char>)
    ensures
        r@ == tidied(path@),
{
    proof {
        reveal_strlit("/");
        reveal_strlit(".");
    }
    let pieces = split_at_each(path, "/");
    let ghost ps = pieces_of(path@, "/"@);
    let n: usize = pieces.len();
    let mut out: Vec<char> = Vec::new();
    assert(out@ =~= tidied_upto(ps, 0));
    let mut i: usize = 0;
    while i < n
        invariant
            "/"@ =~= seq!['/'],
            "."@ =~= seq!['.'],
            ps == views(pieces@),
            n == pieces@.len(),
            i <= n,
            out@ == tidied_upto(ps, i as int),
        decreases n - i,
    {
        let piece = pieces[i];
        let ghost before = out@;
        assert(ps[i as int] == piece@);
        let point: bool = piece.len() == 1 && piece[0] == '.';
        assert(point == (piece@ =~= "."@));
        if i == 0 {
            if piece.len() == 0 && n > 1 {
                out.push('/');
                assert(out@ =~= "/"@);
            } else {
                append_all(&mut out, piece);
                assert(out@ =~= piece@);
            }
        } else if piece.len() > 0 && !point {
            if out.len() > 0 && out[out.len() - 1] != '/' {
                out.push('/');
            }
            append_all(&mut out, piece);
            assert(out@ =~= tidied_upto(ps, i + 1));
        }
        i += 1;
    }
    out
}

fn append_all(out: &mut Vec<char>, cs: &[char])
    ensures
        final(out)@ == old(out)@ + cs@,
{
    let ghost start = out@;
    let mut i: usize = 0;
    assert(start + cs@.take(0) =~= start);
    while i < cs.len()
        invariant
            i <= cs@.len(),
            out@ == start + cs@.take(i as int),
        decreases cs.len() - i,
    {
        out.push(cs[i]);
        i += 1;
        assert(out@ =~= start + cs@.take(i as int));
    }
    assert(cs@.take(i as int) =~= cs@);
}

/// Whether a part is the name of a file or directory.
fn is_plain_name(part: &[char]) -> (r: bool)
    ensures
        r == is_name(part@),
{
    proof {
        reveal_strlit(".");
        reveal_strlit("..");
    }
    let n: usize = part.len();
    let here: bool = n == 1 && part[0] == '.';
    let up: bool = n == 2 && part[0] == '.' && part[1] == '.';
    assert(here == (part@ =~= "."@));
    assert(up == (part@ =~= ".."@));
    n > 0 && !here && !up
}

/// The directory of a tidy path.
pub fn directory(path: &[char]) -> (r: String)
    ensures
        r@ == dir_of(path@),
{
    match last_of(path, '/') {
        Some(k) => if k == 0 {
            String::from_str("/")
        } else {
            assert(path@.subrange(0, k as int) =~= path@.take(k as int));
            string_of(slice_subrange(path, 0, k))
        },
        None => {
            let s = String::new();
            assert(s@ =~= seq![]);
            s
        },
    }
}

/// A file's name without its extension, or what to take if the path ends in no name.
pub fn stem_or_else(path: &str, other: &str) -> (r: String)
    ensures
        r@ == stem_or(path@, other@),
{
    let cs = chars_of(path);
    let t = tidy(cs.as_slice());
    if is_plain_name(file_name(t.as_slice())) {
        string_of(file_stem(t.as_slice()))
    } else {
        String::from_str(other)
    }
}

/// The last part of a path.
pub fn file_name<'a>(path: &'a [char]) -> (r: &'a [char])
    ensures
        r@ == name_part(path@),
{
    match last_of(path, '/') {
        Some(k) => {
            let n: usize = path.len();
            assert(path@.subrange(k + 1, n as int) =~= name_part(path@));
            assert(k + 1 <= n);
            slice_subrange(path, k + 1, n)
        },
        None => {
            assert(path@.skip(0) =~= path@);
            path
        },
    }
}

fn find_dot(name: &[char]) -> (r: Option<usize>)
    ensures
        (match r {
            Some(k) => Some(k as int),
            None => None,
        }) == dot_place(name@),
        r matches Some(k) ==> k < name@.len(),
{
    proof {
        reveal_strlit("..");
    }
    let up: bool = name.len() == 2 && name[0] == '.' && name[1] == '.';
    assert(up == (name@ =~= ".."@));
    match last_of(name, '.') {
        Some(k) => if k > 0 && !up {
            Some(k)
        } else {
            None
        },
        None => None,
    }
}

/// A file's name without its extension.
pub fn file_stem<'a>(path: &'a [char]) -> (r: &'a [char])
    ensures
        r@ == stem_of(path@),
{
    let name = file_name(path);
    match find_dot(name) {
        Some(k) => {
            assert(name@.subrange(0, k as int) =~= name@.take(k as int));
            slice_subrange(name, 0, k)
        },
        None => name,
    }
}

/// The extension of a file's name.
pub fn extension<'a>(path: &'a [char]) -> (r: Option<&'a [char]>)
    ensures
        (match r {
            Some(e) => Some(e@),
            None => None,
        }) == extension_of(path@),
{
    let name = file_name(path);
    match find_dot(name) {
        Some(k) => {
            let n: usize = name.len();
            assert(name@.subrange(k + 1, n as int) =~= name@.skip(k + 1));
            assert(k + 1 <= n);
            Some(slice_subrange(name, k + 1, n))
        },
        None => None,
    }
}

/// The text is one of these.
pub open spec fn is_among(text: Seq<char>, v: Seq<&'static str>) -> bool {
    exists|i: int| 0 <= i < v.len() && (#[trigger] v[i])@ == text
}

/// Whether a path has one of some extensions, given in lower case.
#[verifier::loop_isolation(false)]
pub fn has_ext(path: &str, exts: &[&'static str]) -> (r: bool)
    ensures
        r == (match extension_of(tidied(path@)) {
            Some(e) => is_among(lowered(e), exts@),
            None => false,
        }),
{
    let cs = chars_of(path);
    let t = tidy(cs.as_slice());
    match extension(t.as_slice()) {
        None => false,
        Some(e) => {
            let text = string_of(e);
            let lower = crate::io::words::lower(text.as_str());
            let mut i: usize = 0;
            while i < exts.len()
                invariant
                    i <= exts@.len(),
                    forall|k: int| 0 <= k < i ==> (#[trigger] exts@[k])@ != lower@,
                decreases exts.len() - i,
            {
                if same_text(exts[i], lower.as_str()) {
                    return true;
                }
                i += 1;
            }
            false
        },
    }
}

/// A text in upper case, as `str::to_uppercase` has it.
pub uninterp spec fn raised(text: Seq<char>) -> Seq<char>;

/// Calls `str::to_uppercase`: the claim is that the result depends on the text alone.
#[verifier::external_body]
fn to_upper(text: &str) -> (r: String)
    ensures
        r@ == raised(text@),
{
    text.to_uppercase()
}

/// A path without the slashes and points at its end that stand for no part. The slash of the root
/// and a point by itself stay.
pub open spec fn bare(path: Seq<char>) -> Seq<char>
    decreases path.len(),
{
    let n = path.len();
    if n > 1 && (path[n - 1] == '/' || (path[n - 1] == '.' && path[n - 2] == '/')) {
        bare(path.drop_last())
    } else {
        path
    }
}

/// A path with another extension; without one if the new one is empty. What stands in front of the
/// file's name stays, and a path that ends in no name stays as a whole.
pub open spec fn with_extension(path: Seq<char>, ext: Seq<char>) -> Seq<char> {
    let b = bare(path);
    if !is_name(name_part(b)) {
        path
    } else if ext.len() == 0 {
        without_extension(b)
    } else {
        without_extension(b) + "."@ + ext
    }
}

/// The extensions that a transcript may be written with.
pub open spec fn ext_spellings(ext: Seq<char>, upper: Seq<char>) -> Seq<Seq<char>> {
    if ext == "textgrid"@ {
        seq![ext, upper, "TextGrid"@, "Textgrid"@]
    } else {
        seq![ext, upper]
    }
}

/// Something stays of a path.
pub(crate) proof fn bare_keeps_some(path: Seq<char>)
    requires
        path.len() > 0,
    ensures
        bare(path).len() > 0,
    decreases path.len(),
{
    if bare(path) != path {
        bare_keeps_some(path.drop_last());
    }
}

/// A path without the slashes and points at its end.
pub(crate) fn find_bare<'a>(path: &'a [char]) -> (r: &'a [char])
    ensures
        r@ == bare(path@),
{
    let mut n: usize = path.len();
    assert(path@.subrange(0, n as int) =~= path@);
    while n > 1 && (path[n - 1] == '/' || (path[n - 1] == '.' && path[n - 2] == '/'))
        invariant
            n <= path@.len(),
            bare(path@.subrange(0, n as int)) == bare(path@),
        decreases n,
    {
        assert(path@.subrange(0, n as int).drop_last() =~= path@.subrange(0, n - 1));
        n -= 1;
    }
    slice_subrange(path, 0, n)
}

/// A path without the extension of its file's name.
fn cut_extension<'a>(path: &'a [char]) -> (r: &'a [char])
    ensures
        r@ == without_extension(path@),
{
    let name = file_name(path);
    match find_dot(name) {
        Some(k) => {
            proof {
                last_in_fits(path@, seq!['/']);
            }
            let start: usize = path.len() - name.len();
            proof {
                assert(start == last_in(path@, seq!['/']) + 1);
                assert(path@.subrange(0, start + k) =~= path@.take(start + k));
            }
            slice_subrange(path, 0, start + k)
        },
        None => path,
    }
}

fn change_extension(path: &[char], ext: &str) -> (r: String)
    ensures
        r@ == with_extension(path@, ext@),
{
    let b = find_bare(path);
    if !is_plain_name(file_name(b)) {
        return string_of(path);
    }
    let mut out = string_of(cut_extension(b));
    if chars_of(ext).len() > 0 {
        out.append(".");
        out.append(ext);
    }
    out
}

proof fn last_in_fits(s: Seq<char>, set: Seq<char>)
    ensures
        -1 <= last_in(s, set) < s.len() || (s.len() == 0 && last_in(s, set) == -1),
    decreases s.len(),
{
    if s.len() > 0 && !set.contains(s.last()) {
        last_in_fits(s.drop_last(), set);
    }
}

/// Where a transcript with an extension may be, next to an audio file.
pub fn ext_candidates(audio: &str, ext: &str) -> (r: Vec<String>)
    ensures
        texts(r@) == Seq::new(
            ext_spellings(ext@, raised(ext@)).len(),
            |i: int| with_extension(audio@, ext_spellings(ext@, raised(ext@))[i]),
        ),
{
    let upper = to_upper(ext);
    let cs = chars_of(audio);
    let path = cs.as_slice();
    let mut v: Vec<String> = Vec::new();
    v.push(change_extension(path, ext));
    v.push(change_extension(path, upper.as_str()));
    if same_text(ext, "textgrid") {
        v.push(change_extension(path, "TextGrid"));
        v.push(change_extension(path, "Textgrid"));
    }
    assert(texts(v@) =~= Seq::new(
        ext_spellings(ext@, raised(ext@)).len(),
        |i: int| with_extension(audio@, ext_spellings(ext@, raised(ext@))[i]),
    ));
    v
}

/// The texts of the first `n` intervals that are not blank, without the spaces around them.
pub open spec fn labels_upto(tier: IntervalTier, n: int) -> Seq<Seq<char>>
    decreases n,
{
    if n <= 0 {
        seq![]
    } else {
        let before = labels_upto(tier, n - 1);
        let label = trimmed(tier.intervals@[n - 1].text@, SPACES@);
        if label.len() > 0 {
            before.push(label)
        } else {
            before
        }
    }
}

/// The transcript in a TextGrid: the texts of its first tier; none if it has no tiers.
pub fn read_transcript(tg: &TextGrid) -> (r: Option<String>)
    ensures
        match r {
            Some(t) => tg.tiers@.len() > 0 && t@ == spaced(
                labels_upto(tg.tiers@[0], tg.tiers@[0].intervals@.len() as int),
            ),
            None => tg.tiers@.len() == 0,
        },
{
    if tg.tiers.len() == 0 {
        return None;
    }
    let tier = &tg.tiers[0];
    let spaces = chars_of(SPACES);
    let mut labels: Vec<String> = Vec::new();
    assert(texts(labels@) =~= seq![]);
    let mut i: usize = 0;
    while i < tier.intervals.len()
        invariant
            spaces@ == SPACES@,
            i <= tier.intervals@.len(),
            texts(labels@) == labels_upto(*tier, i as int),
        decreases tier.intervals.len() - i,
    {
        let cs = chars_of(tier.intervals[i].text.as_str());
        let label = trim(cs.as_slice(), spaces.as_slice());
        if label.len() > 0 {
            let ghost before = labels@;
            labels.push(string_of(label));
            assert(texts(labels@) =~= texts(before).push(label@));
        }
        i += 1;
    }
    Some(join_spaced(&labels))
}

/// A part of the path can end at `i`.
pub open spec fn is_edge(path: Seq<char>, i: int) -> bool {
    i == path.len() || path[i] == '/' || (i > 0 && path[i - 1] == '/')
}

/// The first place from `i` on where the path so far is the tidy path `root`.
pub open spec fn root_end(path: Seq<char>, root: Seq<char>, i: int) -> Option<int>
    decreases path.len() + 1 - i,
{
    if i > path.len() {
        None
    } else if is_edge(path, i) && tidied(path.take(i)) == root {
        Some(i)
    } else {
        root_end(path, root, i + 1)
    }
}

/// Where the next part starts, behind slashes and points by themselves.
pub open spec fn part_start(path: Seq<char>, i: int) -> int
    decreases path.len() - i,
{
    if i < path.len() && (path[i] == '/' || (path[i] == '.' && is_edge(path, i + 1))) {
        part_start(path, i + 1)
    } else {
        i
    }
}

/// A path below a root, relative to it; the path itself if it is not below the root. Both are
/// compared part by part; what stands between the parts that are left stays.
pub open spec fn relative(root: Seq<char>, path: Seq<char>) -> Seq<char> {
    if root.len() == 0 {
        bare(path)
    } else {
        match root_end(path, tidied(root), 0) {
            Some(i) => bare(path.skip(part_start(path, i))),
            None => path,
        }
    }
}

/// What an utterance is called: the path of its audio relative to the root, without extension.
pub open spec fn id_for(root: Seq<char>, audio: Seq<char>) -> Seq<char> {
    let s = replaced(with_extension(relative(root, audio), ""@), "\\"@, "/"@);
    if s.len() == 0 {
        "utt"@
    } else {
        s
    }
}

/// Where the root ends in a path.
fn find_root_end(path: &[char], root: &str) -> (r: Option<usize>)
    ensures
        (match r {
            Some(k) => Some(k as int),
            None => None,
        }) == root_end(path@, root@, 0),
        r matches Some(k) ==> k <= path@.len(),
{
    let n: usize = path.len();
    let mut i: usize = 0;
    loop
        invariant
            n == path@.len(),
            i <= n,
            root_end(path@, root@, 0) == root_end(path@, root@, i as int),
        decreases n - i,
    {
        if i == n || path[i] == '/' || (i > 0 && path[i - 1] == '/') {
            assert(path@.subrange(0, i as int) =~= path@.take(i as int));
            let so_far = string_of(tidy(slice_subrange(path, 0, i)).as_slice());
            if same_text(so_far.as_str(), root) {
                return Some(i);
            }
        }
        if i == n {
            assert(root_end(path@, root@, n + 1) is None);
            return None;
        }
        i += 1;
    }
}

/// Where the next part of a path starts.
fn find_part_start(path: &[char], from: usize) -> (r: usize)
    requires
        from <= path@.len(),
    ensures
        r == part_start(path@, from as int),
        r <= path@.len(),
{
    let n: usize = path.len();
    let mut i: usize = from;
    while i < n && (path[i] == '/' || (path[i] == '.' && (i + 1 == n || path[i + 1] == '/')))
        invariant
            n == path@.len(),
            i <= n,
            part_start(path@, from as int) == part_start(path@, i as int),
        decreases n - i,
    {
        i += 1;
    }
    i
}

/// A path relative to a root.
fn relative_to<'a>(root: &str, path: &'a [char]) -> (r: &'a [char])
    ensures
        r@ == relative(root@, path@),
{
    let rc = chars_of(root);
    if rc.len() == 0 {
        return find_bare(path);
    }
    let top = string_of(tidy(rc.as_slice()).as_slice());
    match find_root_end(path, top.as_str()) {
        Some(i) => {
            let k: usize = find_part_start(path, i);
            let n: usize = path.len();
            assert(path@.subrange(k as int, n as int) =~= path@.skip(k as int));
            find_bare(slice_subrange(path, k, n))
        },
        None => path,
    }
}

/// What an utterance is called.
pub fn utt_id(root: &str, audio: &str) -> (r: String)
    ensures
        r@ == id_for(root@, audio@),
{
    let cs = chars_of(audio);
    let stem = change_extension(relative_to(root, cs.as_slice()), "");
    proof {
        reveal_strlit("\\");
    }
    let sc = chars_of(stem.as_str());
    let s = replace(sc.as_slice(), "\\", "/");
    if s.len() == 0 {
        String::from_str("utt")
    } else {
        string_of(s.as_slice())
    }
}

/// Who speaks in an audio file: always the same speaker; the start of the file's name; or the
/// directory of the file, unless that is the root.
pub open spec fn speaker_of(root: Seq<char>, audio: Seq<char>, source: SpeakerSource) -> Seq<char> {
    match source {
        SpeakerSource::Single => "speaker"@,
        SpeakerSource::Prefix(n) => {
            let stem = stem_or(audio, ""@);
            if n == 0 || n >= stem.len() {
                stem
            } else {
                stem.take(n as int)
            }
        },
        SpeakerSource::ParentDir => {
            let dir = dir_of(tidied(audio));
            if dir == tidied(root) || !is_name(name_part(dir)) {
                "speaker"@
            } else {
                name_part(dir)
            }
        },
    }
}

/// Who speaks in an audio file.
pub fn speaker_name(root: &str, audio: &str, source: &SpeakerSource) -> (r: String)
    ensures
        r@ == speaker_of(root@, audio@, *source),
{
    match source {
        SpeakerSource::Single => String::from_str("speaker"),
        SpeakerSource::Prefix(n) => {
            let whole = stem_or_else(audio, "");
            let stem = chars_of(whole.as_str());
            if *n == 0 || *n >= stem.len() {
                whole
            } else {
                assert(stem@.subrange(0, *n as int) =~= stem@.take(*n as int));
                string_of(slice_subrange(stem.as_slice(), 0, *n))
            }
        },
        SpeakerSource::ParentDir => {
            let cs = chars_of(audio);
            let t = tidy(cs.as_slice());
            let dir = directory(t.as_slice());
            let rc = chars_of(root);
            let top = string_of(tidy(rc.as_slice()).as_slice());
            let dc = chars_of(dir.as_str());
            let name = file_name(dc.as_slice());
            if same_text(dir.as_str(), top.as_str()) || !is_plain_name(name) {
                String::from_str("speaker")
            } else {
                string_of(name)
            }
        },
    }
}

} // verus!
