//! The basic layer of Kaldi's binary format: tokens, numbers, integer vectors, and `Vector` and
//! `Matrix` blobs.
//!
//! A binary stream starts with `"\0B"`. After that a token is its text followed by a space; a
//! number is one byte that holds its size (negative for an unsigned type), then the value in
//! little-endian order; an integer vector is an element-size byte, a raw count and the packed
//! elements; a `Vector` or `Matrix` is a token for its type, its dimensions as numbers, and the
//! raw data, row after row.

use vstd::prelude::*;
use vstd::string::StringExecFns;

use crate::float::{eval, is_evaluator, value, FloatOp};
use crate::text::{
    append_decimal, append_hex_list, ascii_space, ascii_text, decimal, decimal_int, decode_lossy,
    hex_list, is_ascii_bytes, is_ascii_space, lossy, quote, quoted, same_text, with_int,
};

verus! {

/// What is wrong with a Kaldi binary file.
#[derive(Debug)]
#[allow(inconsistent_fields)]
pub enum KaldiReadError {
    /// The file ends before what is read does; `need` more bytes were wanted.
    Eof { offset: usize, need: usize },
    /// The file does not start with the binary header.
    NotBinary { found: [u8; 2] },
    /// Another token than the expected one.
    BadToken { offset: usize, expected: String, found: String },
    /// A number of another size than the expected one.
    BadWidth { offset: usize, what: &'static str, want: usize, got: u8 },
    /// Anything else.
    Malformed { offset: usize, msg: String },
}

/// A [`KaldiReadError`] with its texts as sequences.
#[verifier::ext_equal]
#[allow(inconsistent_fields)]
pub enum Trouble {
    Eof { offset: int, need: int },
    NotBinary { found: Seq<u8> },
    BadToken { offset: int, expected: Seq<char>, found: Seq<char> },
    BadWidth { offset: int, what: Seq<char>, want: int, got: u8 },
    Malformed { offset: int, msg: Seq<char> },
}

impl View for KaldiReadError {
    type V = Trouble;

    open spec fn view(&self) -> Trouble {
        match *self {
            KaldiReadError::Eof { offset, need } => Trouble::Eof {
                offset: offset as int,
                need: need as int,
            },
            KaldiReadError::NotBinary { found } => Trouble::NotBinary { found: found@ },
            KaldiReadError::BadToken { offset, expected, found } => Trouble::BadToken {
                offset: offset as int,
                expected: expected@,
                found: found@,
            },
            KaldiReadError::BadWidth { offset, what, want, got } => Trouble::BadWidth {
                offset: offset as int,
                what: what@,
                want: want as int,
                got,
            },
            KaldiReadError::Malformed { offset, msg } => Trouble::Malformed {
                offset: offset as int,
                msg: msg@,
            },
        }
    }
}

/// The message of a trouble.
pub open spec fn trouble_message(e: Trouble) -> Seq<char> {
    match e {
        Trouble::Eof { offset, need } => "unexpected end of file at offset "@ + decimal(
            offset as nat,
        ) + ": need "@ + decimal(need as nat) + " more bytes"@,
        Trouble::NotBinary { found } => "not a Kaldi binary file: expected a \\0B header, found "@
            + hex_list(found, found.len() as int) + "]"@,
        Trouble::BadToken { offset, expected, found } => "at offset "@ + decimal(offset as nat)
            + ": expected token "@ + quoted(expected) + ", found "@ + quoted(found),
        Trouble::BadWidth { offset, what, want, got } => "at offset "@ + decimal(offset as nat)
            + ": expected a "@ + decimal(want as nat) + "-byte "@ + what
            + ", but the size byte says "@ + decimal(got as nat),
        Trouble::Malformed { offset, msg } => "at offset "@ + decimal(offset as nat) + ": "@ + msg,
    }
}

impl KaldiReadError {
    /// The message for the user.
    pub fn to_string(&self) -> (r: String)
        ensures
            r@ == trouble_message(self@),
    {
        let mut out = String::new();
        match self {
            KaldiReadError::Eof { offset, need } => {
                out.append("unexpected end of file at offset ");
                append_decimal(&mut out, *offset as u64);
                out.append(": need ");
                append_decimal(&mut out, *need as u64);
                out.append(" more bytes");
            },
            KaldiReadError::NotBinary { found } => {
                out.append("not a Kaldi binary file: expected a \\0B header, found ");
                append_hex_list(&mut out, found.as_slice());
                out.append("]");
            },
            KaldiReadError::BadToken { offset, expected, found } => {
                out.append("at offset ");
                append_decimal(&mut out, *offset as u64);
                out.append(": expected token ");
                out.append(quote(expected.as_str()).as_str());
                out.append(", found ");
                out.append(quote(found.as_str()).as_str());
            },
            KaldiReadError::BadWidth { offset, what, want, got } => {
                out.append("at offset ");
                append_decimal(&mut out, *offset as u64);
                out.append(": expected a ");
                append_decimal(&mut out, *want as u64);
                out.append("-byte ");
                out.append(*what);
                out.append(", but the size byte says ");
                append_decimal(&mut out, *got as u64);
            },
            KaldiReadError::Malformed { offset, msg } => {
                out.append("at offset ");
                append_decimal(&mut out, *offset as u64);
                out.append(": ");
                out.append(msg.as_str());
            },
        }
        assert(out@ =~= trouble_message(self@));
        out
    }
}

/// What reading at some position comes to: a value, or a trouble, and where the cursor is then.
#[verifier::ext_equal]
pub enum Parsed<T> {
    Done(T, int),
    Failed(Trouble, int),
}

/// The number of bytes of a file that ends before `pos + n`, as far as a `usize` goes.
pub open spec fn shortfall(len: int, pos: int, n: int) -> int {
    if pos + n - len > usize::MAX {
        usize::MAX as int
    } else {
        pos + n - len
    }
}

/// The next `n` bytes.
pub open spec fn bytes_at(buf: Seq<u8>, pos: int, n: int) -> Parsed<Seq<u8>> {
    if pos + n > buf.len() {
        Parsed::Failed(
            Trouble::Eof { offset: pos, need: shortfall(buf.len() as int, pos, n) },
            pos,
        )
    } else {
        Parsed::Done(buf.subrange(pos, pos + n), pos + n)
    }
}

/// The place of the first byte from `pos` on that is not whitespace, or the end.
pub open spec fn after_space(buf: Seq<u8>, pos: int) -> int
    decreases buf.len() - pos,
{
    if 0 <= pos < buf.len() && is_ascii_space(buf[pos]) {
        after_space(buf, pos + 1)
    } else {
        pos
    }
}

/// The place of the first byte from `pos` on that is whitespace, or the end.
pub open spec fn after_text(buf: Seq<u8>, pos: int) -> int
    decreases buf.len() - pos,
{
    if 0 <= pos < buf.len() && !is_ascii_space(buf[pos]) {
        after_text(buf, pos + 1)
    } else {
        pos
    }
}

/// The text of a token: its characters if it is ASCII, and otherwise what is left of it as UTF-8.
pub open spec fn token_text(bytes: Seq<u8>) -> Seq<char> {
    if is_ascii_bytes(bytes) {
        ascii_text(bytes)
    } else {
        lossy(bytes)
    }
}

/// A token: whitespace is skipped, the text goes on to the next whitespace, and the space that
/// delimits it is taken too.
pub open spec fn token_at(buf: Seq<u8>, pos: int) -> Parsed<Seq<char>> {
    let start = after_space(buf, pos);
    let end = after_text(buf, start);
    if start == end {
        Parsed::Failed(Trouble::Eof { offset: start, need: 1 }, start)
    } else if end < buf.len() && buf[end] == 0x20 {
        Parsed::Done(token_text(buf.subrange(start, end)), end + 1)
    } else {
        Parsed::Done(token_text(buf.subrange(start, end)), end)
    }
}

/// The expected token.
pub open spec fn expected_at(buf: Seq<u8>, pos: int, expected: Seq<char>) -> Parsed<()> {
    match token_at(buf, pos) {
        Parsed::Done(found, next) => if found == expected {
            Parsed::Done((), next)
        } else {
            Parsed::Failed(Trouble::BadToken { offset: pos, expected, found }, next)
        },
        Parsed::Failed(e, next) => Parsed::Failed(e, next),
    }
}

/// Four bytes as an unsigned number, the lowest byte first.
pub open spec fn le32(b: Seq<u8>) -> u32 {
    (b[0] + b[1] * 0x100 + b[2] * 0x1_0000 + b[3] * 0x100_0000) as u32
}

/// Eight bytes as an unsigned number, the lowest byte first.
pub open spec fn le64(b: Seq<u8>) -> u64 {
    (le32(b.subrange(0, 4)) + le32(b.subrange(4, 8)) * 0x1_0000_0000) as u64
}

/// The signed number with this bit pattern.
pub open spec fn signed(v: u32) -> i32 {
    if v < 0x8000_0000 {
        v as i32
    } else {
        (v - 0x1_0000_0000) as i32
    }
}

/// A size byte that must be `want`, then four bytes.
pub open spec fn sized_at(buf: Seq<u8>, pos: int, want: u8, what: Seq<char>) -> Parsed<u32> {
    match bytes_at(buf, pos, 1) {
        Parsed::Done(size, p1) => if size[0] != want {
            Parsed::Failed(Trouble::BadWidth { offset: pos, what, want: 4, got: size[0] }, p1)
        } else {
            match bytes_at(buf, p1, 4) {
                Parsed::Done(b, p2) => Parsed::Done(le32(b), p2),
                Parsed::Failed(e, p2) => Parsed::Failed(e, p2),
            }
        },
        Parsed::Failed(e, p1) => Parsed::Failed(e, p1),
    }
}

/// A 32-bit signed number.
pub open spec fn i32_at(buf: Seq<u8>, pos: int) -> Parsed<i32> {
    match sized_at(buf, pos, 4, "integer"@) {
        Parsed::Done(v, next) => Parsed::Done(signed(v), next),
        Parsed::Failed(e, next) => Parsed::Failed(e, next),
    }
}

/// A 32-bit unsigned number, whose size byte is -4.
pub open spec fn u32_at(buf: Seq<u8>, pos: int) -> Parsed<u32> {
    sized_at(buf, pos, 0xfc, "unsigned integer"@)
}

/// A floating-point number of either width, in single precision.
pub open spec fn float_at<F: Fn(FloatOp) -> u64>(buf: Seq<u8>, pos: int, f: F) -> Parsed<u32> {
    match bytes_at(buf, pos, 1) {
        Parsed::Done(size, p1) => if size[0] == 4 {
            match bytes_at(buf, p1, 4) {
                Parsed::Done(b, p2) => Parsed::Done(le32(b), p2),
                Parsed::Failed(e, p2) => Parsed::Failed(e, p2),
            }
        } else if size[0] == 8 {
            match bytes_at(buf, p1, 8) {
                Parsed::Done(b, p2) => Parsed::Done(value(f, FloatOp::Narrow(le64(b))), p2),
                Parsed::Failed(e, p2) => Parsed::Failed(e, p2),
            }
        } else {
            Parsed::Failed(
                Trouble::BadWidth { offset: pos, what: "float"@, want: 4, got: size[0] },
                p1,
            )
        },
        Parsed::Failed(e, p1) => Parsed::Failed(e, p1),
    }
}

/// The packed 32-bit elements of a byte string.
pub open spec fn packed32(b: Seq<u8>) -> Seq<u32> {
    Seq::new(b.len() / 4, |i: int| le32(b.subrange(4 * i, 4 * i + 4)))
}

/// A vector of 32-bit integers.
pub open spec fn int_vec_at(buf: Seq<u8>, pos: int) -> Parsed<Seq<i32>> {
    match sized_at(buf, pos, 4, "integer-vector element"@) {
        Parsed::Done(v, p1) => {
            let n = signed(v);
            if n < 0 {
                Parsed::Failed(
                    Trouble::Malformed {
                        offset: pos,
                        msg: "negative integer-vector length "@ + decimal_int(n as int),
                    },
                    p1,
                )
            } else {
                match bytes_at(buf, p1, 4 * n) {
                    Parsed::Done(b, p2) => Parsed::Done(
                        packed32(b).map_values(|x: u32| signed(x)),
                        p2,
                    ),
                    Parsed::Failed(e, p2) => Parsed::Failed(e, p2),
                }
            }
        },
        Parsed::Failed(e, p1) => Parsed::Failed(e, p1),
    }
}

/// The packed floats of a byte string, `width` bytes each, in single precision.
pub open spec fn floats_of<F: Fn(FloatOp) -> u64>(b: Seq<u8>, width: int, f: F) -> Seq<u32> {
    if width == 4 {
        packed32(b)
    } else {
        Seq::new(
            b.len() / 8,
            |i: int| value(f, FloatOp::Narrow(le64(b.subrange(8 * i, 8 * i + 8)))),
        )
    }
}

/// The width that a blob's type token announces: single or double precision.
pub open spec fn width_of(token: Seq<char>, single: Seq<char>, double: Seq<char>) -> Option<int> {
    if token == single {
        Some(4)
    } else if token == double {
        Some(8)
    } else {
        None
    }
}

/// A vector of floats.
pub open spec fn vector_at<F: Fn(FloatOp) -> u64>(
    buf: Seq<u8>,
    pos: int,
    f: F,
) -> Parsed<Seq<u32>> {
    match token_at(buf, pos) {
        Parsed::Done(token, p1) => match width_of(token, "FV"@, "DV"@) {
            Some(width) => match i32_at(buf, p1) {
                Parsed::Done(n, p2) => if n < 0 {
                    Parsed::Failed(
                        Trouble::Malformed {
                            offset: pos,
                            msg: "negative vector dim "@ + decimal_int(n as int),
                        },
                        p2,
                    )
                } else {
                    match bytes_at(buf, p2, width * n) {
                        Parsed::Done(b, p3) => Parsed::Done(floats_of(b, width, f), p3),
                        Parsed::Failed(e, p3) => Parsed::Failed(e, p3),
                    }
                },
                Parsed::Failed(e, p2) => Parsed::Failed(e, p2),
            },
            None => Parsed::Failed(
                Trouble::BadToken { offset: pos, expected: "FV or DV"@, found: token },
                p1,
            ),
        },
        Parsed::Failed(e, p1) => Parsed::Failed(e, p1),
    }
}

/// A matrix of floats: its rows, its columns, and the data row after row.
pub open spec fn matrix_at<F: Fn(FloatOp) -> u64>(buf: Seq<u8>, pos: int, f: F) -> Parsed<
    (int, int, Seq<u32>),
> {
    match token_at(buf, pos) {
        Parsed::Done(token, p1) => match width_of(token, "FM"@, "DM"@) {
            Some(width) => match i32_at(buf, p1) {
                Parsed::Done(rows, p2) => match i32_at(buf, p2) {
                    Parsed::Done(cols, p3) => if rows < 0 || cols < 0 {
                        Parsed::Failed(
                            Trouble::Malformed {
                                offset: pos,
                                msg: "negative matrix dims "@ + decimal_int(rows as int) + "x"@
                                    + decimal_int(cols as int),
                            },
                            p3,
                        )
                    } else {
                        match bytes_at(buf, p3, width * rows * cols) {
                            Parsed::Done(b, p4) => Parsed::Done(
                                (rows as int, cols as int, floats_of(b, width, f)),
                                p4,
                            ),
                            Parsed::Failed(e, p4) => Parsed::Failed(e, p4),
                        }
                    },
                    Parsed::Failed(e, p3) => Parsed::Failed(e, p3),
                },
                Parsed::Failed(e, p2) => Parsed::Failed(e, p2),
            },
            None => Parsed::Failed(
                Trouble::BadToken { offset: pos, expected: "FM or DM"@, found: token },
                p1,
            ),
        },
        Parsed::Failed(e, p1) => Parsed::Failed(e, p1),
    }
}

/// What is wrong with the header of a file: it has to start with a zero byte and `B`. Bytes that
/// are missing are shown as zero.
pub open spec fn header_fault(buf: Seq<u8>) -> Option<Trouble> {
    if buf.len() >= 2 && buf[0] == 0 && buf[1] == 0x42 {
        None
    } else {
        Some(
            Trouble::NotBinary {
                found: seq![
                    if buf.len() > 0 {
                        buf[0]
                    } else {
                        0u8
                    },
                    if buf.len() > 1 {
                        buf[1]
                    } else {
                        0u8
                    },
                ],
            },
        )
    }
}

/// The result of reading and the cursor after it are what `parsed` says.
pub open spec fn outcome<T>(r: Result<T, KaldiReadError>, pos: int, parsed: Parsed<T>) -> bool {
    match parsed {
        Parsed::Done(v, next) => r matches Ok(x) && x == v && pos == next,
        Parsed::Failed(e, next) => r matches Err(x) && x@ == e && pos == next,
    }
}

/// As [`outcome`], for a list.
pub open spec fn list_outcome<T>(
    r: Result<Vec<T>, KaldiReadError>,
    pos: int,
    parsed: Parsed<Seq<T>>,
) -> bool {
    match parsed {
        Parsed::Done(v, next) => r matches Ok(x) && x@ == v && pos == next,
        Parsed::Failed(e, next) => r matches Err(x) && x@ == e && pos == next,
    }
}

/// A cursor over a Kaldi binary file in memory.
pub struct KaldiReader<'a> {
    buf: &'a [u8],
    pos: usize,
}

impl<'a> KaldiReader<'a> {
    /// The bytes of the file.
    pub closed spec fn bytes(&self) -> Seq<u8> {
        self.buf@
    }

    /// Where the cursor is.
    pub closed spec fn at(&self) -> int {
        self.pos as int
    }

    /// The cursor is inside the file.
    pub open spec fn inside(&self) -> bool {
        0 <= self.at() <= self.bytes().len()
    }

    /// Wrap `buf` and take the binary header off.
    pub fn new(buf: &'a [u8]) -> (r: Result<Self, KaldiReadError>)
        ensures
            match header_fault(buf@) {
                Some(e) => r matches Err(x) && x@ == e,
                None => r matches Ok(reader) && reader.bytes() == buf@ && reader.at() == 2
                    && reader.inside(),
            },
    {
        let first: u8 = if buf.len() > 0 {
            buf[0]
        } else {
            0
        };
        let second: u8 = if buf.len() > 1 {
            buf[1]
        } else {
            0
        };
        if buf.len() < 2 || first != 0 || second != 0x42 {
            let found: [u8; 2] = [first, second];
            assert(found@ =~= seq![first, second]);
            return Err(KaldiReadError::NotBinary { found });
        }
        Ok(KaldiReader { buf, pos: 2 })
    }

    /// Where the cursor is.
    pub fn offset(&self) -> (r: usize)
        ensures
            r == self.at(),
    {
        self.pos
    }

    /// Whether the cursor is at the end.
    pub fn is_empty(&self) -> (r: bool)
        ensures
            r == (self.at() >= self.bytes().len()),
    {
        self.pos >= self.buf.len()
    }

    /// The next `n` bytes.
    fn take(&mut self, n: u128) -> (r: Result<&'a [u8], KaldiReadError>)
        requires
            old(self).inside(),
            n < 0x1_0000_0000_0000_0000_0000,
        ensures
            final(self).inside(),
            final(self).bytes() == old(self).bytes(),
            match bytes_at(old(self).bytes(), old(self).at(), n as int) {
                Parsed::Done(v, next) => r matches Ok(x) && x@ == v && final(self).at() == next,
                Parsed::Failed(e, next) => r matches Err(x) && x@ == e && final(self).at() == next,
            },
    {
        let left: usize = self.buf.len() - self.pos;
        if n > left as u128 {
            let short: u128 = n - left as u128;
            let need: usize = if short > usize::MAX as u128 {
                usize::MAX
            } else {
                short as usize
            };
            return Err(KaldiReadError::Eof { offset: self.pos, need });
        }
        let end: usize = self.pos + n as usize;
        let s: &'a [u8] = vstd::slice::slice_subrange(self.buf, self.pos, end);
        self.pos = end;
        Ok(s)
    }

    /// The next byte that is not whitespace. The cursor stays.
    pub fn peek(&self) -> (r: Option<u8>)
        requires
            self.inside(),
        ensures
            r == peek_at(self.bytes(), self.at()),
    {
        let mut i: usize = self.pos;
        while i < self.buf.len() && ascii_space(self.buf[i])
            invariant
                self.pos <= i <= self.buf@.len(),
                after_space(self.bytes(), self.at()) == after_space(self.bytes(), i as int),
            decreases self.buf.len() - i,
        {
            i += 1;
        }
        if i < self.buf.len() {
            Some(self.buf[i])
        } else {
            None
        }
    }

    /// A token.
    pub fn token(&mut self) -> (r: Result<String, KaldiReadError>)
        requires
            old(self).inside(),
        ensures
            final(self).inside(),
            final(self).bytes() == old(self).bytes(),
            match token_at(old(self).bytes(), old(self).at()) {
                Parsed::Done(v, next) => r matches Ok(x) && x@ == v && final(self).at() == next,
                Parsed::Failed(e, next) => r matches Err(x) && x@ == e && final(self).at() == next,
            },
    {
        let ghost buf = self.bytes();
        let mut i: usize = self.pos;
        while i < self.buf.len() && ascii_space(self.buf[i])
            invariant
                0 <= i <= self.buf@.len(),
                buf == self.buf@,
                after_space(buf, old(self).at()) == after_space(buf, i as int),
            decreases self.buf.len() - i,
        {
            i += 1;
        }
        let start: usize = i;
        while i < self.buf.len() && !ascii_space(self.buf[i])
            invariant
                start <= i <= self.buf@.len(),
                buf == self.buf@,
                after_text(buf, start as int) == after_text(buf, i as int),
            decreases self.buf.len() - i,
        {
            i += 1;
        }
        self.pos = i;
        if start == i {
            return Err(KaldiReadError::Eof { offset: start, need: 1 });
        }
        let tok = decode_lossy(vstd::slice::slice_subrange(self.buf, start, i));
        if i < self.buf.len() && self.buf[i] == 0x20 {
            self.pos = i + 1;
        }
        Ok(tok)
    }

    /// The expected token.
    pub fn expect(&mut self, expected: &str) -> (r: Result<(), KaldiReadError>)
        requires
            old(self).inside(),
        ensures
            final(self).inside(),
            final(self).bytes() == old(self).bytes(),
            outcome(
                r,
                final(self).at(),
                expected_at(old(self).bytes(), old(self).at(), expected@),
            ),
    {
        let offset: usize = self.pos;
        match self.token() {
            Ok(found) => {
                if same_text(found.as_str(), expected) {
                    Ok(())
                } else {
                    Err(
                        KaldiReadError::BadToken {
                            offset,
                            expected: String::from_str(expected),
                            found,
                        },
                    )
                }
            },
            Err(e) => Err(e),
        }
    }

    /// Take a token only if it is the expected one; otherwise the cursor stays.
    pub fn accept(&mut self, expected: &str) -> (r: Result<bool, KaldiReadError>)
        requires
            old(self).inside(),
        ensures
            final(self).inside(),
            final(self).bytes() == old(self).bytes(),
            match token_at(old(self).bytes(), old(self).at()) {
                Parsed::Done(found, next) => if found == expected@ {
                    r matches Ok(true) && final(self).at() == next
                } else {
                    r matches Ok(false) && final(self).at() == old(self).at()
                },
                Parsed::Failed(e, next) => r matches Ok(false) && final(self).at() == old(self).at(),
            },
    {
        let save: usize = self.pos;
        match self.token() {
            Ok(t) => {
                if same_text(t.as_str(), expected) {
                    return Ok(true);
                }
            },
            Err(e) => {},
        }
        self.pos = save;
        Ok(false)
    }

    /// A size byte that must be `want`, then four bytes.
    fn sized(&mut self, want: u8, what: &'static str) -> (r: Result<u32, KaldiReadError>)
        requires
            old(self).inside(),
        ensures
            final(self).inside(),
            final(self).bytes() == old(self).bytes(),
            outcome(
                r,
                final(self).at(),
                sized_at(old(self).bytes(), old(self).at(), want, what@),
            ),
    {
        let offset: usize = self.pos;
        let size: u8 = match self.take(1) {
            Ok(b) => b[0],
            Err(e) => {
                return Err(e);
            },
        };
        if size != want {
            return Err(KaldiReadError::BadWidth { offset, what, want: 4, got: size });
        }
        match self.take(4) {
            Ok(b) => Ok(from_le32(b)),
            Err(e) => Err(e),
        }
    }

    /// A 32-bit signed number.
    pub fn i32(&mut self) -> (r: Result<i32, KaldiReadError>)
        requires
            old(self).inside(),
        ensures
            final(self).inside(),
            final(self).bytes() == old(self).bytes(),
            outcome(r, final(self).at(), i32_at(old(self).bytes(), old(self).at())),
    {
        match self.sized(4, "integer") {
            Ok(v) => Ok(to_signed(v)),
            Err(e) => Err(e),
        }
    }

    /// A 32-bit unsigned number.
    pub fn u32(&mut self) -> (r: Result<u32, KaldiReadError>)
        requires
            old(self).inside(),
        ensures
            final(self).inside(),
            final(self).bytes() == old(self).bytes(),
            outcome(r, final(self).at(), u32_at(old(self).bytes(), old(self).at())),
    {
        self.sized(0xfc, "unsigned integer")
    }

    /// A floating-point number of either width, in single precision.
    pub fn float<F: Fn(FloatOp) -> u64>(&mut self, f: &F) -> (r: Result<u32, KaldiReadError>)
        requires
            is_evaluator(*f),
            old(self).inside(),
        ensures
            final(self).inside(),
            final(self).bytes() == old(self).bytes(),
            outcome(r, final(self).at(), float_at(old(self).bytes(), old(self).at(), *f)),
    {
        let offset: usize = self.pos;
        let size: u8 = match self.take(1) {
            Ok(b) => b[0],
            Err(e) => {
                return Err(e);
            },
        };
        if size == 4 {
            match self.take(4) {
                Ok(b) => Ok(from_le32(b)),
                Err(e) => Err(e),
            }
        } else if size == 8 {
            match self.take(8) {
                Ok(b) => Ok(eval(f, FloatOp::Narrow(from_le64(b)))),
                Err(e) => Err(e),
            }
        } else {
            Err(KaldiReadError::BadWidth { offset, what: "float", want: 4, got: size })
        }
    }

    /// A vector of 32-bit integers.
    pub fn int_vec(&mut self) -> (r: Result<Vec<i32>, KaldiReadError>)
        requires
            old(self).inside(),
        ensures
            final(self).inside(),
            final(self).bytes() == old(self).bytes(),
            list_outcome(r, final(self).at(), int_vec_at(old(self).bytes(), old(self).at())),
    {
        let offset: usize = self.pos;
        let n: i32 = match self.sized(4, "integer-vector element") {
            Ok(v) => to_signed(v),
            Err(e) => {
                return Err(e);
            },
        };
        if n < 0 {
            return Err(
                KaldiReadError::Malformed {
                    offset,
                    msg: with_int("negative integer-vector length ", n as i64),
                },
            );
        }
        match self.take(4 * n as u128) {
            Ok(data) => {
                let ghost want = packed32(data@).map_values(|x: u32| signed(x));
                let size: usize = data.len();
                let count: usize = size / 4;
                let mut out: Vec<i32> = Vec::new();
                let mut i: usize = 0;
                while i < count
                    invariant
                        i <= count,
                        size == data@.len(),
                        count == size / 4,
                        want == packed32(data@).map_values(|x: u32| signed(x)),
                        out@ == want.take(i as int),
                    decreases count - i,
                {
                    let chunk = vstd::slice::slice_subrange(data, 4 * i, 4 * i + 4);
                    out.push(to_signed(from_le32(chunk)));
                    assert(out@ =~= want.take(i + 1));
                    i += 1;
                }
                assert(out@ =~= want);
                Ok(out)
            },
            Err(e) => Err(e),
        }
    }

    /// A vector of floats.
    pub fn vector<F: Fn(FloatOp) -> u64>(&mut self, f: &F) -> (r: Result<Vec<u32>, KaldiReadError>)
        requires
            is_evaluator(*f),
            old(self).inside(),
        ensures
            final(self).inside(),
            final(self).bytes() == old(self).bytes(),
            list_outcome(r, final(self).at(), vector_at(old(self).bytes(), old(self).at(), *f)),
    {
        let offset: usize = self.pos;
        let tok = match self.token() {
            Ok(t) => t,
            Err(e) => {
                return Err(e);
            },
        };
        let width: usize = if same_text(tok.as_str(), "FV") {
            4
        } else if same_text(tok.as_str(), "DV") {
            8
        } else {
            return Err(
                KaldiReadError::BadToken {
                    offset,
                    expected: String::from_str("FV or DV"),
                    found: tok,
                },
            );
        };
        let n: i32 = match self.i32() {
            Ok(v) => v,
            Err(e) => {
                return Err(e);
            },
        };
        if n < 0 {
            return Err(
                KaldiReadError::Malformed {
                    offset,
                    msg: with_int("negative vector dim ", n as i64),
                },
            );
        }
        match self.take(width as u128 * n as u128) {
            Ok(data) => Ok(decode_floats(data, width, f)),
            Err(e) => Err(e),
        }
    }

    /// A matrix of floats: its rows, its columns, and the data row after row.
    pub fn matrix<F: Fn(FloatOp) -> u64>(&mut self, f: &F) -> (r: Result<
        (usize, usize, Vec<u32>),
        KaldiReadError,
    >)
        requires
            is_evaluator(*f),
            old(self).inside(),
        ensures
            final(self).inside(),
            final(self).bytes() == old(self).bytes(),
            match matrix_at(old(self).bytes(), old(self).at(), *f) {
                Parsed::Done(m, next) => r matches Ok(x) && x.0 == m.0 && x.1 == m.1 && x.2@ == m.2
                    && final(self).at() == next,
                Parsed::Failed(e, next) => r matches Err(x) && x@ == e && final(self).at() == next,
            },
    {
        let offset: usize = self.pos;
        let tok = match self.token() {
            Ok(t) => t,
            Err(e) => {
                return Err(e);
            },
        };
        let width: usize = if same_text(tok.as_str(), "FM") {
            4
        } else if same_text(tok.as_str(), "DM") {
            8
        } else {
            return Err(
                KaldiReadError::BadToken {
                    offset,
                    expected: String::from_str("FM or DM"),
                    found: tok,
                },
            );
        };
        let rows: i32 = match self.i32() {
            Ok(v) => v,
            Err(e) => {
                return Err(e);
            },
        };
        let cols: i32 = match self.i32() {
            Ok(v) => v,
            Err(e) => {
                return Err(e);
            },
        };
        if rows < 0 || cols < 0 {
            let mut msg = with_int("negative matrix dims ", rows as i64);
            msg.append("x");
            crate::text::append_int(&mut msg, cols as i64);
            return Err(KaldiReadError::Malformed { offset, msg });
        }
        assert(0 <= width * rows * cols < 0x1_0000_0000_0000_0000_0000) by (nonlinear_arith)
            requires
                0 <= width <= 8,
                0 <= rows <= i32::MAX,
                0 <= cols <= i32::MAX,
        ;
        assert(0 <= width * rows < 0x1_0000_0000_0000) by (nonlinear_arith)
            requires
                0 <= width <= 8,
                0 <= rows <= i32::MAX,
        ;
        match self.take(width as u128 * rows as u128 * cols as u128) {
            Ok(data) => Ok((rows as usize, cols as usize, decode_floats(data, width, f))),
            Err(e) => Err(e),
        }
    }

    /// The error for a malformed file, at the cursor.
    pub fn malformed(&self, msg: String) -> (r: KaldiReadError)
        ensures
            r@ == (Trouble::Malformed { offset: self.at(), msg: msg@ }),
    {
        KaldiReadError::Malformed { offset: self.pos, msg }
    }
}

/// The next byte that is not whitespace.
pub open spec fn peek_at(buf: Seq<u8>, pos: int) -> Option<u8> {
    let i = after_space(buf, pos);
    if 0 <= i < buf.len() {
        Some(buf[i])
    } else {
        None
    }
}

fn from_le32(b: &[u8]) -> (r: u32)
    requires
        b@.len() == 4,
    ensures
        r == le32(b@),
{
    b[0] as u32 + b[1] as u32 * 0x100 + b[2] as u32 * 0x1_0000 + b[3] as u32 * 0x100_0000
}

fn from_le64(b: &[u8]) -> (r: u64)
    requires
        b@.len() == 8,
    ensures
        r == le64(b@),
{
    let lo: u32 = from_le32(vstd::slice::slice_subrange(b, 0, 4));
    let hi: u32 = from_le32(vstd::slice::slice_subrange(b, 4, 8));
    lo as u64 + hi as u64 * 0x1_0000_0000
}

fn to_signed(v: u32) -> (r: i32)
    ensures
        r == signed(v),
{
    if v < 0x8000_0000 {
        v as i32
    } else {
        (v as i64 - 0x1_0000_0000) as i32
    }
}

fn decode_floats<F: Fn(FloatOp) -> u64>(data: &[u8], width: usize, f: &F) -> (r: Vec<u32>)
    requires
        is_evaluator(*f),
        width == 4 || width == 8,
    ensures
        r@ == floats_of(data@, width as int, *f),
{
    let ghost want = floats_of(data@, width as int, *f);
    let size: usize = data.len();
    let count: usize = size / width;
    let mut out: Vec<u32> = Vec::new();
    let mut i: usize = 0;
    while i < count
        invariant
            is_evaluator(*f),
            width == 4 || width == 8,
            i <= count,
            size == data@.len(),
            width == 4 ==> count == size / 4,
            width == 8 ==> count == size / 8,
            want == floats_of(data@, width as int, *f),
            out@ == want.take(i as int),
        decreases count - i,
    {
        if width == 4 {
            out.push(from_le32(vstd::slice::slice_subrange(data, 4 * i, 4 * i + 4)));
        } else {
            let wide: u64 = from_le64(vstd::slice::slice_subrange(data, 8 * i, 8 * i + 8));
            out.push(eval(f, FloatOp::Narrow(wide)));
        }
        assert(out@ =~= want.take(i + 1));
        i += 1;
    }
    assert(out@ =~= want);
    out
}

} // verus!
