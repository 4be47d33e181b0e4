//! Text as sequences of characters.

use vstd::prelude::*;
use vstd::string::StringExecFns;

verus! {

/// `std::string::String::push` appends one character.
pub assume_specification[ String::push ](s: &mut String, c: char)
    ensures
        final(s)@ == old(s)@.push(c),
;

/// What `String::from_utf8_lossy` makes of a byte string: its decoding as UTF-8, with U+FFFD in
/// place of every invalid sequence.
pub uninterp spec fn lossy(bytes: Seq<u8>) -> Seq<char>;

/// Every byte is an ASCII character.
pub open spec fn is_ascii_bytes(bytes: Seq<u8>) -> bool {
    forall|i: int| 0 <= i < bytes.len() ==> #[trigger] bytes[i] < 0x80
}

/// The ASCII characters that the bytes are.
pub open spec fn ascii_text(bytes: Seq<u8>) -> Seq<char> {
    Seq::new(bytes.len(), |i: int| bytes[i] as char)
}

/// Calls `String::from_utf8_lossy` and keeps the text: the claim is that the text depends on the
/// bytes alone, and that ASCII bytes decode to themselves.
#[verifier::external_body]
pub(crate) fn decode_lossy(bytes: &[u8]) -> (r: String)
    ensures
        r@ == lossy(bytes@),
        is_ascii_bytes(bytes@) ==> r@ == ascii_text(bytes@),
{
    String::from_utf8_lossy(bytes).into_owned()
}

/// What is wrong with bytes that are no UTF-8, in the words of `std::str::Utf8Error`.
pub uninterp spec fn utf8_message(bytes: Seq<u8>) -> Seq<char>;

/// Calls `std::str::from_utf8`: the claim is that bytes that are valid UTF-8 are decoded, and that
/// the message for others depends on the bytes alone.
#[verifier::external_body]
pub(crate) fn decode_utf8(bytes: &[u8]) -> (r: Result<String, String>)
    ensures
        match r {
            Ok(text) => vstd::utf8::valid_utf8(bytes@) && text@ == vstd::utf8::decode_utf8(bytes@),
            Err(message) => !vstd::utf8::valid_utf8(bytes@) && message@ == utf8_message(bytes@),
        },
{
    std::str::from_utf8(bytes).map(|t| t.to_string()).map_err(|e| e.to_string())
}

/// The text in the bytes of a file, as `encoding_rs` decodes it.
pub uninterp spec fn decoded(bytes: Seq<u8>) -> Seq<char>;

/// The bytes start with the mark of UTF-8.
pub open spec fn is_utf8_marked(bytes: Seq<u8>) -> bool {
    bytes.len() >= 3 && bytes[0] == 0xef && bytes[1] == 0xbb && bytes[2] == 0xbf
}

/// The bytes start with the mark of an encoding: UTF-8, or UTF-16 in either byte order.
pub open spec fn is_marked(bytes: Seq<u8>) -> bool {
    ||| is_utf8_marked(bytes)
    ||| bytes.len() >= 2 && bytes[0] == 0xff && bytes[1] == 0xfe
    ||| bytes.len() >= 2 && bytes[0] == 0xfe && bytes[1] == 0xff
}

/// Calls `encoding_rs::Encoding::decode` of UTF-8, which goes by the mark that the bytes start with
/// and takes them for UTF-8 where there is none: the claim is that the text depends on the bytes
/// alone, that unmarked bytes that are valid UTF-8 are decoded as such, and that valid UTF-8 after the
/// mark of UTF-8 is decoded without the mark. What becomes of bytes with the mark of UTF-16 and of
/// invalid ones is left unsaid. The function panics only where a buffer would outgrow the address
/// space.
#[verifier::external_body]
pub(crate) fn decode_text(bytes: &[u8]) -> (r: String)
    requires
        bytes@.len() <= usize::MAX / 8,
    ensures
        r@ == decoded(bytes@),
        !is_marked(bytes@) && vstd::utf8::valid_utf8(bytes@) ==> r@ == vstd::utf8::decode_utf8(
            bytes@,
        ),
        is_utf8_marked(bytes@) && vstd::utf8::valid_utf8(bytes@.skip(3)) ==> r@
            == vstd::utf8::decode_utf8(bytes@.skip(3)),
{
    encoding_rs::UTF_8.decode(bytes).0.into_owned()
}

/// A text in quotes, as `format!` writes it with `{:?}`.
pub uninterp spec fn quoted(text: Seq<char>) -> Seq<char>;

/// Calls `format!` with `{:?}`: the claim is that the quoted text depends on the text alone.
#[verifier::external_body]
pub(crate) fn quote(text: &str) -> (r: String)
    ensures
        r@ == quoted(text@),
{
    format!("{:?}", text)
}

/// The characters of a string slice.
pub fn chars_of(s: &str) -> (r: Vec<char>)
    ensures
        r@ == s@,
{
    let mut out: Vec<char> = Vec::new();
    for c in it: s.chars()
        invariant
            out@ == it.seq().take(it.index()),
            it.seq() == s@,
    {
        out.push(c);
    }
    out
}

/// The string of a list of characters.
pub fn string_of(cs: &[char]) -> (r: String)
    ensures
        r@ == cs@,
{
    let mut out = String::new();
    let mut i: usize = 0;
    while i < cs.len()
        invariant
            i <= cs@.len(),
            out@ == cs@.take(i as int),
        decreases cs.len() - i,
    {
        out.push(cs[i]);
        i += 1;
    }
    out
}

/// Whether two texts are the same.
pub fn same_text(a: &str, b: &str) -> (r: bool)
    ensures
        r == (a@ == b@),
{
    let x = chars_of(a);
    let y = chars_of(b);
    same_chars(&x, &y)
}

/// Whether two lists of characters are the same.
pub fn same_chars(x: &Vec<char>, y: &Vec<char>) -> (r: bool)
    ensures
        r == (x@ == y@),
{
    if x.len() != y.len() {
        return false;
    }
    let mut i: usize = 0;
    while i < x.len()
        invariant
            i <= x@.len(),
            x@.len() == y@.len(),
            forall|k: int| 0 <= k < i ==> x@[k] == y@[k],
        decreases x.len() - i,
    {
        if x[i] != y[i] {
            return false;
        }
        i += 1;
    }
    assert(x@ =~= y@);
    true
}

/// The decimal digit `d` as a character.
pub open spec fn digit(d: int) -> char {
    (48 + d) as u8 as char
}

/// A natural number in decimal.
pub open spec fn decimal(n: nat) -> Seq<char>
    decreases n,
{
    if n < 10 {
        seq![digit(n as int)]
    } else {
        decimal(n / 10).push(digit((n % 10) as int))
    }
}

/// An integer in decimal, with a minus sign where it is negative.
pub open spec fn decimal_int(n: int) -> Seq<char> {
    if n < 0 {
        seq!['-'] + decimal((-n) as nat)
    } else {
        decimal(n as nat)
    }
}

/// Append a number in decimal.
pub fn append_decimal(out: &mut String, n: u64)
    ensures
        final(out)@ == old(out)@ + decimal(n as nat),
    decreases n,
{
    if n >= 10 {
        append_decimal(out, n / 10);
    }
    let c: char = (48 + (n % 10) as u8) as char;
    out.push(c);
    proof {
        assert(c == digit((n % 10) as int));
        assert(out@ =~= old(out)@ + decimal(n as nat));
    }
}

/// Append an integer in decimal.
pub fn append_int(out: &mut String, n: i64)
    ensures
        final(out)@ == old(out)@ + decimal_int(n as int),
{
    if n < 0 {
        out.push('-');
        let m: u64 = if n == i64::MIN {
            0x8000_0000_0000_0000
        } else {
            (-n) as u64
        };
        append_decimal(out, m);
        assert(out@ =~= old(out)@ + (seq!['-'] + decimal((-n) as nat)));
    } else {
        append_decimal(out, n as u64);
    }
}

/// A string that starts with `text` and goes on with the number.
pub fn with_int(text: &str, n: i64) -> (r: String)
    ensures
        r@ == text@ + decimal_int(n as int),
{
    let mut out = String::from_str(text);
    append_int(&mut out, n);
    out
}

/// `a` followed by `b`.
pub fn joined(a: &str, b: &str) -> (r: String)
    ensures
        r@ == a@ + b@,
{
    let mut out = String::from_str(a);
    out.append(b);
    out
}

/// A hexadecimal digit.
pub open spec fn hex_digit(d: int) -> char {
    if d < 10 {
        (48 + d) as u8 as char
    } else {
        (87 + d) as u8 as char
    }
}

/// A byte as two hexadecimal digits.
pub open spec fn hex(b: u8) -> Seq<char> {
    seq![hex_digit(b as int / 16), hex_digit(b as int % 16)]
}

/// Bytes in hexadecimal, after a bracket and with commas between them.
pub open spec fn hex_list(bytes: Seq<u8>, n: int) -> Seq<char>
    decreases n,
{
    if n <= 0 {
        "["@
    } else if n == 1 {
        hex_list(bytes, 0) + hex(bytes[0])
    } else {
        hex_list(bytes, n - 1) + ", "@ + hex(bytes[n - 1])
    }
}

fn append_hex_digit(out: &mut String, d: u8)
    requires
        d < 16,
    ensures
        final(out)@ == old(out)@.push(hex_digit(d as int)),
{
    let c: char = if d < 10 {
        (48 + d) as char
    } else {
        (87 + d) as char
    };
    out.push(c);
}

/// Append bytes in hexadecimal, after a bracket and with commas between them.
pub fn append_hex_list(out: &mut String, bytes: &[u8])
    ensures
        final(out)@ == old(out)@ + hex_list(bytes@, bytes@.len() as int),
{
    let ghost start = out@;
    out.append("[");
    let mut i: usize = 0;
    while i < bytes.len()
        invariant
            i <= bytes@.len(),
            out@ == start + hex_list(bytes@, i as int),
        decreases bytes.len() - i,
    {
        if i > 0 {
            out.append(", ");
        }
        let ghost middle = out@;
        append_hex_digit(out, bytes[i] / 16);
        append_hex_digit(out, bytes[i] % 16);
        proof {
            assert(out@ =~= middle + hex(bytes@[i as int]));
            assert(out@ =~= start + hex_list(bytes@, i + 1));
        }
        i += 1;
    }
}

/// ASCII whitespace: space, tab, line feed, form feed, carriage return.
pub open spec fn is_ascii_space(b: u8) -> bool {
    b == 0x20 || b == 0x09 || b == 0x0a || b == 0x0c || b == 0x0d
}

/// Whether a byte is ASCII whitespace.
pub fn ascii_space(b: u8) -> (r: bool)
    ensures
        r == is_ascii_space(b),
{
    b == 0x20 || b == 0x09 || b == 0x0a || b == 0x0c || b == 0x0d
}

} // verus!
