//! The wire format: header lines, a blank line, and a body of the length
//! that the `Content-Length` header names.
//!
//! A stream is read in steps. `Framer::on_line` takes the header lines one
//! by one and says what to read next, `Framer::on_body` takes the body.
//! `read_msg` does both on a stream that is held in memory.

use crate::text::utf8_text;
use vstd::prelude::*;
use vstd::slice::slice_subrange;
use vstd::utf8::*;

verus! {

/// Why a stream cannot be read any further.
#[derive(Debug, Clone, Copy, PartialEq, Eq, Structural)]
pub enum FramingError {
    /// A header line or a body is not UTF-8.
    InvalidUtf8,
    /// A header line does not end in CR LF, or has no `": "` in it.
    MalformedHeader,
    /// The value of `Content-Length` is no length.
    InvalidContentLength,
    /// The headers ended and none of them was `Content-Length`.
    MissingContentLength,
    /// The stream ended before the body did.
    TruncatedBody,
}

/// What a header line says.
#[derive(Debug, Clone, Copy, PartialEq, Eq, Structural)]
pub enum Header {
    /// The empty line that ends the headers.
    Blank,
    /// `Content-Length`, with the length that it names.
    ContentLength(usize),
    /// Any other header.
    Other,
}

/// What to read next from a stream.
#[derive(Debug, Clone, Copy, PartialEq, Eq, Structural)]
pub enum Step {
    /// Nothing: the stream ended where a message could have begun.
    End,
    /// One more header line.
    Header,
    /// The body, of this many bytes.
    Body(usize),
}

pub const CR: u8 = 13;

pub const LF: u8 = 10;

/// The bytes of `Content-Length: `, the beginning of the one header that
/// a frame is written with.
pub open spec fn content_length_prefix() -> Seq<u8> {
    seq![
        67u8, 111u8, 110u8, 116u8, 101u8, 110u8, 116u8, 45u8,
        76u8, 101u8, 110u8, 103u8, 116u8, 104u8, 58u8, 32u8,
    ]
}

/// The bytes of `content-length`, the key of that header in lower case.
pub open spec fn content_length_key() -> Seq<u8> {
    seq![
        99u8, 111u8, 110u8, 116u8, 101u8, 110u8, 116u8, 45u8,
        108u8, 101u8, 110u8, 103u8, 116u8, 104u8,
    ]
}

/// An ASCII letter in lower case, any other byte as it is.
pub open spec fn spec_lower(b: u8) -> u8 {
    if 65 <= b <= 90 {
        (b + 32) as u8
    } else {
        b
    }
}

/// Whether `key` reads `Content-Length`, in whatever case.
pub open spec fn is_content_length(key: Seq<u8>) -> bool {
    key.map_values(|b: u8| spec_lower(b)) == content_length_key()
}

/// Whether `line` ends in CR LF.
pub open spec fn ends_with_crlf(line: Seq<u8>) -> bool {
    line.len() >= 2 && line[line.len() - 2] == CR && line[line.len() - 1] == LF
}

/// Whether `": "` stands at place `at` of `text`.
pub open spec fn separator_at(text: Seq<u8>, at: int) -> bool {
    0 <= at && at + 1 < text.len() && text[at] == 58 && text[at + 1] == 32
}

/// The place of the first `": "` in `text`.
pub open spec fn find_separator(text: Seq<u8>) -> Option<int>
    decreases text.len(),
{
    if text.len() < 2 {
        None
    } else if separator_at(text, 0) {
        Some(0)
    } else {
        match find_separator(text.drop_first()) {
            Some(at) => Some(at + 1),
            None => None,
        }
    }
}

/// Whether every byte of `digits` is a decimal digit.
pub open spec fn all_digits(digits: Seq<u8>) -> bool {
    forall|i: int| 0 <= i < digits.len() ==> 48 <= #[trigger] digits[i] <= 57
}

/// The number that the decimal digits `digits` write.
pub open spec fn decimal_value(digits: Seq<u8>) -> nat
    decreases digits.len(),
{
    if digits.len() == 0 {
        0
    } else {
        decimal_value(digits.drop_last()) * 10 + (digits.last() - 48) as nat
    }
}

/// The length that `text` names: decimal digits, at least one, with or
/// without a plus sign before them, that write a number which a `usize`
/// holds.
pub open spec fn spec_parse_length(text: Seq<u8>) -> Option<usize> {
    let digits = if text.len() > 0 && text[0] == 43 {
        text.drop_first()
    } else {
        text
    };
    if digits.len() > 0 && all_digits(digits) && decimal_value(digits) <= usize::MAX {
        Some(decimal_value(digits) as usize)
    } else {
        None
    }
}

/// What the header line `line` says. The line is taken with the bytes that
/// end it.
pub open spec fn spec_header(line: Seq<u8>) -> Result<Header, FramingError> {
    if !valid_utf8(line) {
        Err(FramingError::InvalidUtf8)
    } else if !ends_with_crlf(line) {
        Err(FramingError::MalformedHeader)
    } else {
        let text = line.take(line.len() - 2);
        if text.len() == 0 {
            Ok(Header::Blank)
        } else {
            match find_separator(text) {
                None => Err(FramingError::MalformedHeader),
                Some(at) => if is_content_length(text.take(at)) {
                    match spec_parse_length(text.skip(at + 2)) {
                        Some(n) => Ok(Header::ContentLength(n)),
                        None => Err(FramingError::InvalidContentLength),
                    }
                } else {
                    Ok(Header::Other)
                },
            }
        }
    }
}

/// The length that is known after a header line, and what to read next.
///
/// A line of no bytes is the end of the stream. The blank line ends the
/// headers, and asks for the body if a length is known. Of several
/// `Content-Length` headers the last one counts.
pub open spec fn spec_on_line(size: Option<usize>, line: Seq<u8>) -> Result<
    (Option<usize>, Step),
    FramingError,
> {
    if line.len() == 0 {
        Ok((size, Step::End))
    } else {
        match spec_header(line) {
            Err(e) => Err(e),
            Ok(Header::Blank) => match size {
                Some(n) => Ok((size, Step::Body(n))),
                None => Err(FramingError::MissingContentLength),
            },
            Ok(Header::ContentLength(n)) => Ok((Some(n), Step::Header)),
            Ok(Header::Other) => Ok((size, Step::Header)),
        }
    }
}

/// The text of a body, which must have the length that the headers named.
pub open spec fn spec_on_body(size: Option<usize>, body: Seq<u8>) -> Result<
    Seq<char>,
    FramingError,
> {
    match size {
        None => Err(FramingError::MissingContentLength),
        Some(n) => if body.len() != n {
            Err(FramingError::TruncatedBody)
        } else if !valid_utf8(body) {
            Err(FramingError::InvalidUtf8)
        } else {
            Ok(decode_utf8(body))
        },
    }
}

/// Where the line that begins at `from` stops: behind its line feed, or at
/// the end of the stream if there is none.
pub open spec fn line_stop(stream: Seq<u8>, from: int) -> int
    decreases stream.len() - from,
{
    if from < 0 || from >= stream.len() {
        stream.len() as int
    } else if stream[from] == LF {
        from + 1
    } else {
        line_stop(stream, from + 1)
    }
}

/// The headers of the message that begins at `pos`, read with the length
/// `size` known so far: the length of the body and the offset at which it
/// begins, or `None` at the end of the stream.
pub open spec fn spec_read_headers(stream: Seq<u8>, pos: int, size: Option<usize>) -> Result<
    Option<(usize, int)>,
    FramingError,
>
    decreases stream.len() - pos,
{
    let stop = line_stop(stream, pos);
    if pos < 0 || pos >= stream.len() {
        Ok(None)
    } else {
        match spec_on_line(size, stream.subrange(pos, stop)) {
            Err(e) => Err(e),
            Ok((_, Step::End)) => Ok(None),
            Ok((_, Step::Body(n))) => Ok(Some((n, stop))),
            Ok((known, Step::Header)) => if pos < stop <= stream.len() {
                spec_read_headers(stream, stop, known)
            } else {
                // not reached: a line that begins within the stream has a byte
                Ok(None)
            },
        }
    }
}

/// The message that begins at `pos`: its text and the offset behind it, or
/// `None` at the end of the stream.
pub open spec fn spec_read_msg(stream: Seq<u8>, pos: int) -> Result<
    Option<(Seq<char>, int)>,
    FramingError,
> {
    match spec_read_headers(stream, pos, None) {
        Err(e) => Err(e),
        Ok(None) => Ok(None),
        Ok(Some((size, start))) => {
            let end = if start + size <= stream.len() {
                start + size
            } else {
                stream.len() as int
            };
            match spec_on_body(Some(size), stream.subrange(start, end)) {
                Err(e) => Err(e),
                Ok(text) => Ok(Some((text, end))),
            }
        },
    }
}

/// The decimal digits of `n`.
pub open spec fn spec_decimal(n: nat) -> Seq<u8>
    decreases n,
{
    if n < 10 {
        seq![(48 + n) as u8]
    } else {
        spec_decimal(n / 10).push((48 + n % 10) as u8)
    }
}

/// The frame of a message: the `Content-Length` header with the number of
/// bytes of the text, the blank line, and the text.
pub open spec fn spec_frame(payload: Seq<char>) -> Seq<u8> {
    content_length_prefix() + spec_decimal(encode_utf8(payload).len()) + seq![CR, LF, CR, LF]
        + encode_utf8(payload)
}

/// An ASCII letter in lower case, any other byte as it is.
pub fn lower(b: u8) -> (l: u8)
    ensures
        l == spec_lower(b),
{
    if 65 <= b && b <= 90 {
        b + 32
    } else {
        b
    }
}

/// Whether `key` reads `Content-Length`, in whatever case.
pub fn key_is_content_length(key: &[u8]) -> (is: bool)
    ensures
        is == is_content_length(key@),
{
    let is = key.len() == 14 && lower(key[0]) == 99 && lower(key[1]) == 111 && lower(key[2]) == 110
        && lower(key[3]) == 116 && lower(key[4]) == 101 && lower(key[5]) == 110 && lower(key[6])
        == 116 && lower(key[7]) == 45 && lower(key[8]) == 108 && lower(key[9]) == 101 && lower(
        key[10],
    ) == 110 && lower(key[11]) == 103 && lower(key[12]) == 116 && lower(key[13]) == 104;
    proof {
        let folded = key@.map_values(|b: u8| spec_lower(b));
        if is {
            assert(folded =~= content_length_key());
        } else if key@.len() == 14 {
            assert(folded[0] == spec_lower(key@[0]));
            assert(folded[1] == spec_lower(key@[1]));
            assert(folded[2] == spec_lower(key@[2]));
            assert(folded[3] == spec_lower(key@[3]));
            assert(folded[4] == spec_lower(key@[4]));
            assert(folded[5] == spec_lower(key@[5]));
            assert(folded[6] == spec_lower(key@[6]));
            assert(folded[7] == spec_lower(key@[7]));
            assert(folded[8] == spec_lower(key@[8]));
            assert(folded[9] == spec_lower(key@[9]));
            assert(folded[10] == spec_lower(key@[10]));
            assert(folded[11] == spec_lower(key@[11]));
            assert(folded[12] == spec_lower(key@[12]));
            assert(folded[13] == spec_lower(key@[13]));
        } else {
            assert(folded.len() != content_length_key().len());
        }
    }
    is
}

/// The place of the first `": "` in `text`.
pub fn separator(text: &[u8]) -> (place: Option<usize>)
    ensures
        match place {
            Some(at) => find_separator(text@) == Some(at as int) && at + 2 <= text@.len(),
            None => find_separator(text@) is None,
        },
{
    let mut i: usize = 0;
    assert(text@.skip(0) =~= text@);
    while i < text.len() && text.len() - i >= 2
        invariant
            i <= text@.len(),
            find_separator(text@) == match find_separator(text@.skip(i as int)) {
                Some(at) => Some(at + i),
                None => None,
            },
        decreases text@.len() - i,
    {
        let ghost rest = text@.skip(i as int);
        assert(rest[0] == text@[i as int] && rest[1] == text@[i + 1]);
        if text[i] == 58 && text[i + 1] == 32 {
            return Some(i);
        }
        assert(rest.drop_first() =~= text@.skip(i + 1));
        i += 1;
    }
    assert(text@.skip(i as int).len() < 2);
    None
}

/// A number is at least the number that its first digits write.
pub proof fn lemma_decimal_value_grows(digits: Seq<u8>, n: int)
    requires
        all_digits(digits),
        0 <= n <= digits.len(),
    ensures
        decimal_value(digits.take(n)) <= decimal_value(digits),
    decreases digits.len() - n,
{
    if n < digits.len() {
        assert(digits.take(n + 1).drop_last() =~= digits.take(n));
        assert(digits.take(n + 1).last() == digits[n]);
        lemma_decimal_value_grows(digits, n + 1);
    } else {
        assert(digits.take(n) =~= digits);
    }
}

/// The length that `text` names.
pub fn parse_length(text: &[u8]) -> (length: Option<usize>)
    ensures
        length == spec_parse_length(text@),
{
    let begin: usize = if text.len() > 0 && text[0] == 43 {
        1
    } else {
        0
    };
    let ghost digits = text@.skip(begin as int);
    assert(begin == 1 ==> digits =~= text@.drop_first());
    assert(begin == 0 ==> digits =~= text@);
    if begin == text.len() {
        return None;
    }
    let mut value: usize = 0;
    let mut i: usize = begin;
    assert(digits.take(0) =~= Seq::<u8>::empty());
    while i < text.len()
        invariant
            begin <= i <= text@.len(),
            digits == text@.skip(begin as int),
            digits == if text@.len() > 0 && text@[0] == 43 {
                text@.drop_first()
            } else {
                text@
            },
            all_digits(digits.take(i - begin)),
            value == decimal_value(digits.take(i - begin)),
        decreases text@.len() - i,
    {
        let b = text[i];
        let ghost seen = digits.take(i - begin);
        let ghost more = digits.take(i - begin + 1);
        proof {
            assert(more.drop_last() =~= seen);
            assert(more.last() == b);
            assert(digits[i - begin] == b);
        }
        if b < 48 || b > 57 {
            assert(!all_digits(digits));
            return None;
        }
        assert(all_digits(more)) by {
            assert forall|k: int| 0 <= k < more.len() implies 48 <= #[trigger] more[k] <= 57 by {
                if k < seen.len() {
                    assert(more[k] == seen[k]);
                }
            }
        }
        let d = (b - 48) as usize;
        if value > (usize::MAX - d) / 10 {
            proof {
                assert(decimal_value(more) > usize::MAX);
                if all_digits(digits) {
                    lemma_decimal_value_grows(digits, i - begin + 1);
                }
            }
            return None;
        }
        value = value * 10 + d;
        i += 1;
    }
    assert(digits.take(i - begin) =~= digits);
    Some(value)
}

/// What the header line `line` says.
pub fn parse_header(line: &[u8]) -> (header: Result<Header, FramingError>)
    ensures
        header == spec_header(line@),
{
    if utf8_text(line).is_none() {
        return Err(FramingError::InvalidUtf8);
    }
    let n = line.len();
    if n < 2 || line[n - 2] != CR || line[n - 1] != LF {
        return Err(FramingError::MalformedHeader);
    }
    let text = slice_subrange(line, 0, n - 2);
    assert(text@ =~= line@.take(n - 2));
    if text.len() == 0 {
        return Ok(Header::Blank);
    }
    match separator(text) {
        None => Err(FramingError::MalformedHeader),
        Some(at) => {
            let key = slice_subrange(text, 0, at);
            assert(key@ =~= text@.take(at as int));
            if key_is_content_length(key) {
                let value = slice_subrange(text, at + 2, text.len());
                assert(value@ =~= text@.skip(at + 2));
                match parse_length(value) {
                    Some(n) => Ok(Header::ContentLength(n)),
                    None => Err(FramingError::InvalidContentLength),
                }
            } else {
                Ok(Header::Other)
            }
        },
    }
}

/// The reader of one stream: it keeps the length that the headers of the
/// message under way have named.
#[derive(Debug, Clone, Copy, PartialEq, Eq)]
pub struct Framer {
    pub size: Option<usize>,
}

impl Framer {
    /// A reader at the beginning of a message.
    pub fn new() -> (framer: Self)
        ensures
            framer.size is None,
    {
        Framer { size: None }
    }

    /// Takes a header line, with the bytes that end it, and says what to
    /// read next. A line of no bytes stands for the end of the stream.
    ///
    /// After an error the stream cannot be read any further.
    pub fn on_line(&mut self, line: &[u8]) -> (step: Result<Step, FramingError>)
        ensures
            match (step, spec_on_line(old(self).size, line@)) {
                (Ok(s), Ok((size, t))) => s == t && final(self).size == size,
                (Err(e), Err(f)) => e == f && final(self).size == old(self).size,
                _ => false,
            },
            line@.len() > 0 && !ends_with_crlf(line@) ==> step is Err,
    {
        if line.len() == 0 {
            return Ok(Step::End);
        }
        match parse_header(line) {
            Err(e) => Err(e),
            Ok(Header::Blank) => match self.size {
                Some(n) => Ok(Step::Body(n)),
                None => Err(FramingError::MissingContentLength),
            },
            Ok(Header::ContentLength(n)) => {
                self.size = Some(n);
                Ok(Step::Header)
            },
            Ok(Header::Other) => Ok(Step::Header),
        }
    }

    /// Takes the body that `on_line` asked for, and gives the text of the
    /// message. The reader is then at the beginning of the next message.
    pub fn on_body(&mut self, body: &[u8]) -> (text: Result<String, FramingError>)
        ensures
            final(self).size is None,
            match (text, spec_on_body(old(self).size, body@)) {
                (Ok(t), Ok(s)) => t@ == s,
                (Err(e), Err(f)) => e == f,
                _ => false,
            },
    {
        let size = self.size;
        self.size = None;
        match size {
            None => Err(FramingError::MissingContentLength),
            Some(n) => {
                if body.len() != n {
                    return Err(FramingError::TruncatedBody);
                }
                match utf8_text(body) {
                    Some(text) => Ok(text.to_string()),
                    None => Err(FramingError::InvalidUtf8),
                }
            },
        }
    }
}

/// A message that was read from a stream.
#[derive(Debug, Clone, PartialEq, Eq)]
pub struct Frame {
    /// The text of the message.
    pub payload: String,
    /// The offset in the stream behind the message.
    pub next: usize,
}

/// Where the line that begins at `from` stops.
pub fn find_line_stop(stream: &[u8], from: usize) -> (stop: usize)
    ensures
        stop == line_stop(stream@, from as int),
        from < stream@.len() ==> from < stop <= stream@.len(),
{
    let mut i: usize = from;
    while i < stream.len()
        invariant
            from <= i,
            line_stop(stream@, from as int) == line_stop(stream@, i as int),
        decreases stream@.len() - i,
    {
        if stream[i] == LF {
            return i + 1;
        }
        i += 1;
    }
    stream.len()
}

/// Reads the message that begins at offset `pos` of `stream`.
///
/// The result is the message and the offset behind it, from which the next
/// call goes on; `None` where the stream ends at `pos`, or within the
/// headers at the end of a line.
pub fn read_msg(stream: &[u8], pos: usize) -> (msg: Result<Option<Frame>, FramingError>)
    ensures
        match (msg, spec_read_msg(stream@, pos as int)) {
            (Ok(Some(frame)), Ok(Some((text, next)))) => frame.payload@ == text && frame.next
                == next,
            (Ok(None), Ok(None)) => true,
            (Err(e), Err(f)) => e == f,
            _ => false,
        },
{
    let mut framer = Framer::new();
    let mut at: usize = pos;
    while at < stream.len()
        invariant
            spec_read_headers(stream@, pos as int, None) == spec_read_headers(
                stream@,
                at as int,
                framer.size,
            ),
        decreases stream@.len() - at,
    {
        let stop = find_line_stop(stream, at);
        let line = slice_subrange(stream, at, stop);
        match framer.on_line(line) {
            Err(e) => {
                return Err(e);
            },
            Ok(Step::End) => {
                return Ok(None);
            },
            Ok(Step::Header) => {
                at = stop;
            },
            Ok(Step::Body(size)) => {
                let end = if size <= stream.len() - stop {
                    stop + size
                } else {
                    stream.len()
                };
                let body = slice_subrange(stream, stop, end);
                return match framer.on_body(body) {
                    Ok(payload) => Ok(Some(Frame { payload, next: end })),
                    Err(e) => Err(e),
                };
            },
        }
    }
    Ok(None)
}

/// Appends the decimal digits of `n` to `out`.
pub fn push_decimal(out: &mut Vec<u8>, n: usize)
    ensures
        final(out)@ == old(out)@ + spec_decimal(n as nat),
    decreases n,
{
    if n < 10 {
        out.push(48 + n as u8);
        assert(out@ =~= old(out)@ + spec_decimal(n as nat));
    } else {
        push_decimal(out, n / 10);
        out.push(48 + (n % 10) as u8);
        assert(out@ =~= old(out)@ + spec_decimal(n as nat));
    }
}

/// Frames a message for the wire.
pub fn frame(payload: &str) -> (bytes: Vec<u8>)
    ensures
        bytes@ == spec_frame(payload@),
{
    let body = payload.as_bytes();
    let mut out: Vec<u8> = Vec::new();
    out.push(67);
    out.push(111);
    out.push(110);
    out.push(116);
    out.push(101);
    out.push(110);
    out.push(116);
    out.push(45);
    out.push(76);
    out.push(101);
    out.push(110);
    out.push(103);
    out.push(116);
    out.push(104);
    out.push(58);
    out.push(32);
    assert(out@ =~= content_length_prefix());
    push_decimal(&mut out, body.len());
    out.push(CR);
    out.push(LF);
    out.push(CR);
    out.push(LF);
    let ghost head = out@;
    assert(head =~= content_length_prefix() + spec_decimal(body@.len()) + seq![CR, LF, CR, LF]);
    let mut i: usize = 0;
    while i < body.len()
        invariant
            i <= body@.len(),
            out@ == head + body@.take(i as int),
        decreases body@.len() - i,
    {
        out.push(body[i]);
        assert(out@ =~= head + body@.take(i + 1));
        i += 1;
    }
    assert(body@.take(i as int) =~= body@);
    out
}

/// A line that begins within the stream has at least one byte, and stops
/// within the stream.
pub proof fn lemma_line_stop_bounds(stream: Seq<u8>, from: int)
    requires
        0 <= from < stream.len(),
    ensures
        from < line_stop(stream, from) <= stream.len(),
    decreases stream.len() - from,
{
    if stream[from] != LF {
        if from + 1 < stream.len() {
            lemma_line_stop_bounds(stream, from + 1);
        } else {
            assert(line_stop(stream, from + 1) == stream.len());
        }
    }
}

/// A line stops behind its first line feed.
pub proof fn lemma_line_stop_at(stream: Seq<u8>, from: int, feed: int)
    requires
        0 <= from <= feed < stream.len(),
        stream[feed] == LF,
        forall|k: int| from <= k < feed ==> stream[k] != LF,
    ensures
        line_stop(stream, from) == feed + 1,
    decreases feed - from,
{
    if from < feed {
        lemma_line_stop_at(stream, from + 1, feed);
    }
}

/// The first `": "` of a text is where it stands with none before it.
pub proof fn lemma_separator_at(text: Seq<u8>, at: int)
    requires
        separator_at(text, at),
        forall|k: int| 0 <= k < at ==> !#[trigger] separator_at(text, k),
    ensures
        find_separator(text) == Some(at),
    decreases at,
{
    if at > 0 {
        let rest = text.drop_first();
        assert(!separator_at(text, 0));
        assert forall|k: int| 0 <= k < at - 1 implies !#[trigger] separator_at(rest, k) by {
            assert(rest[k] == text[k + 1] && rest[k + 1] == text[k + 2]);
            assert(!separator_at(text, k + 1));
        }
        assert(rest[at - 1] == text[at] && rest[at] == text[at + 1]);
        lemma_separator_at(rest, at - 1);
    }
}

/// The digits of a number are digits, at least one, and write the number.
pub proof fn lemma_decimal_digits(n: nat)
    ensures
        spec_decimal(n).len() >= 1,
        all_digits(spec_decimal(n)),
        decimal_value(spec_decimal(n)) == n,
    decreases n,
{
    if n < 10 {
        let d = spec_decimal(n);
        assert(d.drop_last() =~= Seq::<u8>::empty());
        assert(decimal_value(d.drop_last()) == 0);
    } else {
        lemma_decimal_digits(n / 10);
        let head = spec_decimal(n / 10);
        let d = head.push((48 + n % 10) as u8);
        assert(d.drop_last() =~= head);
        assert forall|i: int| 0 <= i < d.len() implies 48 <= #[trigger] d[i] <= 57 by {
            if i < head.len() {
                assert(d[i] == head[i]);
            }
        }
    }
}

/// Bytes below 128 are valid UTF-8.
pub proof fn lemma_ascii_is_utf8(bytes: Seq<u8>)
    requires
        forall|i: int| 0 <= i < bytes.len() ==> bytes[i] < 128,
    ensures
        valid_utf8(bytes),
{
    let chars = Seq::new(bytes.len(), |i: int| bytes[i] as char);
    assert(is_ascii_chars(chars));
    is_ascii_chars_encode_utf8(chars);
    assert(encode_utf8(chars) =~= bytes) by {
        assert forall|i: int| 0 <= i < bytes.len() implies encode_utf8(chars)[i] == bytes[i] by {
            assert(chars[i] as u8 == bytes[i]);
        }
    }
    encode_utf8_valid_utf8(chars);
}

/// A header line that does not end in CR LF ends the reading of its
/// stream with an error, whatever was read before it.
pub proof fn lemma_unterminated_header_fails(stream: Seq<u8>, pos: int, size: Option<usize>)
    requires
        0 <= pos < stream.len(),
        !ends_with_crlf(stream.subrange(pos, line_stop(stream, pos))),
    ensures
        spec_read_headers(stream, pos, size) == Err::<Option<(usize, int)>, FramingError>(
            if valid_utf8(stream.subrange(pos, line_stop(stream, pos))) {
                FramingError::MalformedHeader
            } else {
                FramingError::InvalidUtf8
            },
        ),
{
    lemma_line_stop_bounds(stream, pos);
}

/// A message that was framed is read back as it was, whatever follows it
/// in the stream, and the reading stops right behind it.
pub proof fn lemma_frame_round_trip(payload: Seq<char>, rest: Seq<u8>)
    requires
        encode_utf8(payload).len() <= usize::MAX,
    ensures
        spec_read_msg(spec_frame(payload) + rest, 0) == Ok::<
            Option<(Seq<char>, int)>,
            FramingError,
        >(Some((payload, spec_frame(payload).len() as int))),
{
    let body = encode_utf8(payload);
    let n = body.len();
    let digits = spec_decimal(n);
    let prefix = content_length_prefix();
    let stream = spec_frame(payload) + rest;
    let d = digits.len() as int;
    let stop1 = 16 + d + 2;
    let stop2 = stop1 + 2;
    lemma_decimal_digits(n);
    assert(stream.len() == stop2 + n + rest.len());
    assert forall|k: int| 0 <= k < 16 implies stream[k] == prefix[k] by {}
    assert forall|k: int| 16 <= k < 16 + d implies stream[k] == #[trigger] digits[k - 16] by {}
    assert(stream[16 + d] == CR && stream[16 + d + 1] == LF);
    assert(stream[stop1] == CR && stream[stop1 + 1] == LF);
    assert forall|k: int| 0 <= k < 16 + d + 1 implies stream[k] != LF by {
        if 16 <= k < 16 + d {
            assert(stream[k] == digits[k - 16]);
        }
    }
    lemma_line_stop_at(stream, 0, 16 + d + 1);
    let line1 = stream.subrange(0, stop1);
    assert forall|i: int| 0 <= i < line1.len() implies line1[i] < 128 by {
        if 16 <= i < 16 + d {
            assert(line1[i] == digits[i - 16]);
        }
    }
    lemma_ascii_is_utf8(line1);
    let text = line1.take(line1.len() - 2);
    assert(text =~= prefix + digits);
    assert forall|k: int| 0 <= k < 14 implies !#[trigger] separator_at(text, k) by {
        assert(text[k] == prefix[k]);
    }
    assert(text[14] == prefix[14] && text[15] == prefix[15]);
    lemma_separator_at(text, 14);
    assert(text.take(14).map_values(|b: u8| spec_lower(b)) =~= content_length_key());
    assert(text.skip(16) =~= digits);
    assert(digits[0] != 43);
    assert(spec_parse_length(digits) == Some(n as usize));
    assert(spec_on_line(None, line1) == Ok::<(Option<usize>, Step), FramingError>(
        (Some(n as usize), Step::Header),
    ));
    let line2 = stream.subrange(stop1, stop2);
    assert(line2 =~= seq![CR, LF]);
    lemma_line_stop_at(stream, stop1, stop1 + 1);
    lemma_ascii_is_utf8(line2);
    assert(line2.take(0).len() == 0);
    assert(spec_on_line(Some(n as usize), line2) == Ok::<(Option<usize>, Step), FramingError>(
        (Some(n as usize), Step::Body(n as usize)),
    ));
    assert(spec_read_headers(stream, stop1, Some(n as usize)) == Ok::<
        Option<(usize, int)>,
        FramingError,
    >(Some((n as usize, stop2))));
    assert(spec_read_headers(stream, 0, None) == Ok::<Option<(usize, int)>, FramingError>(
        Some((n as usize, stop2)),
    ));
    assert(stream.subrange(stop2, stop2 + n) =~= body);
    encode_utf8_valid_utf8(payload);
    encode_utf8_decode_utf8(payload);
}

} // verus!
