//! The RESP wire format: values, their parser and their serializer.
use vstd::prelude::*;
use vstd::utf8::*;
use vstd::string::StringSliceAdditionalSpecFns;
use crate::ext::{utf8_error_text, int_error_text, utf8_str, parse_i64, char_text};
use crate::text::{decimal_i64, ascii_bytes, nat_digits, int_text, join, push_digits, push_int, push_str_bytes,
    lemma_int_text_roundtrip, lemma_ascii_encoding, lemma_nat_digits, is_digit};

verus! {

/// A RESP value as the server reads and writes it.
#[derive(Debug, PartialEq)]
pub enum RespValue {
    SimpleString(String),
    Error(String),
    Integer(i64),
    BulkString(Option<String>),
    Array(Option<Vec<RespValue>>),
}

/// Why a buffer does not hold a RESP value.
#[derive(Debug)]
pub enum RespError {
    /// The buffer ends before the value does.
    Incomplete,
    /// The buffer does not hold RESP; the text says why.
    Protocol(String),
}

/// The meaning of a RESP value, each string taken as its characters.
pub enum Frame {
    Simple(Seq<char>),
    Error(Seq<char>),
    Integer(i64),
    Bulk(Option<Seq<char>>),
    Array(Option<Seq<Frame>>),
}

impl View for RespValue {
    type V = Frame;

    open spec fn view(&self) -> Frame
        decreases self,
    {
        match self {
            RespValue::SimpleString(s) => Frame::Simple(s@),
            RespValue::Error(s) => Frame::Error(s@),
            RespValue::Integer(i) => Frame::Integer(*i),
            RespValue::BulkString(None) => Frame::Bulk(None),
            RespValue::BulkString(Some(s)) => Frame::Bulk(Some(s@)),
            RespValue::Array(None) => Frame::Array(None),
            RespValue::Array(Some(items)) => Frame::Array(Some(frames_of(items@))),
        }
    }
}

/// The meaning of each value of a list.
pub open spec fn frames_of(items: Seq<RespValue>) -> Seq<Frame>
    decreases items,
{
    Seq::new(items.len(), |i: int| if 0 <= i < items.len() { items[i]@ } else { Frame::Integer(0) })
}

/// What parsing a buffer comes to: a frame and the number of bytes it took,
/// or the need for more bytes, or a protocol error with its message.
pub enum Parsed {
    Done(Frame, nat),
    Incomplete,
    Protocol(Seq<char>),
}

/// What reading the first line of a buffer comes to.
pub enum Line {
    /// No CR LF after the type byte yet.
    Missing,
    /// The line is not UTF-8; the message says why.
    BadUtf8(Seq<char>),
    /// The line's text and the offset just past its CR LF.
    Text(Seq<char>, nat),
}

/// A CR LF pair starts at `i`.
pub open spec fn is_crlf_at(b: Seq<u8>, i: int) -> bool {
    0 <= i && i + 1 < b.len() && b[i] == 13u8 && b[i + 1] == 10u8
}

/// The first CR LF pair at or after `start`.
pub open spec fn first_crlf(b: Seq<u8>, start: nat) -> Option<nat>
    decreases b.len() - start,
{
    if start + 1 >= b.len() {
        None
    } else if is_crlf_at(b, start as int) {
        Some(start)
    } else {
        first_crlf(b, start + 1)
    }
}

/// The line that follows the type byte, up to the first CR LF.
pub open spec fn line_of(b: Seq<u8>) -> Line {
    match first_crlf(b, 1) {
        None => Line::Missing,
        Some(p) => {
            let raw = b.subrange(1, p as int);
            if valid_utf8(raw) {
                Line::Text(decode_utf8(raw), p + 2)
            } else {
                Line::BadUtf8(utf8_error_text(raw))
            }
        },
    }
}

pub proof fn lemma_first_crlf(b: Seq<u8>, start: nat)
    ensures
        first_crlf(b, start) matches Some(p) ==> start <= p && is_crlf_at(b, p as int),
        first_crlf(b, start) matches Some(p) ==> forall|j: int| start <= j < p ==> !is_crlf_at(b, j),
        first_crlf(b, start) is None ==> forall|j: int| start <= j ==> !is_crlf_at(b, j),
    decreases b.len() - start,
{
    if start + 1 < b.len() && !is_crlf_at(b, start as int) {
        lemma_first_crlf(b, start + 1);
    }
}

/// A line that was read starts after the type byte and ends inside the buffer.
pub proof fn lemma_line_bounds(b: Seq<u8>)
    ensures
        line_of(b) matches Line::Text(_, h) ==> 3 <= h <= b.len(),
{
    lemma_first_crlf(b, 1);
}

/// A value that was parsed took at least three bytes (a type byte and a
/// CR LF) and no more than there were.
pub proof fn lemma_parse_length(b: Seq<u8>)
    ensures
        parse_frame(b) matches Parsed::Done(_, k) ==> 3 <= k <= b.len(),
        parse_frame(b) matches Parsed::Done(_, k) ==> line_of(b) is Text && line_of(b)->Text_1 <= k,
    decreases b.len(), 0int, 0int,
{
    lemma_line_bounds(b);
    if b.len() > 0 && b[0] == 42u8 {
        if let Line::Text(t, h) = line_of(b) {
            if let Some(n) = decimal_i64(t) {
                if n >= 0 {
                    lemma_items_length(b.subrange(h as int, b.len() as int), h, n as nat, seq![]);
                }
            }
        }
    }
}

/// Parsing the values of an array takes no more than the bytes left.
pub proof fn lemma_items_length(rest: Seq<u8>, used: nat, left: nat, acc: Seq<Frame>)
    ensures
        parse_items(rest, used, left, acc) matches Parsed::Done(_, u) ==> used <= u <= used + rest.len(),
    decreases rest.len(), 1int, left,
{
    if left > 0 {
        lemma_parse_length(rest);
        if let Parsed::Done(f, k) = parse_frame(rest) {
            if k <= rest.len() {
                lemma_items_length(rest.subrange(k as int, rest.len() as int), used + k, (left - 1) as nat, acc.push(f));
            }
        }
    }
}

/// The message for a line that is not UTF-8.
pub open spec fn bad_line_message(detail: Seq<char>) -> Seq<char> {
    "Invalid UTF-8 in line: "@ + detail
}

/// What parsing one RESP value at the start of `b` comes to.
pub open spec fn parse_frame(b: Seq<u8>) -> Parsed
    decreases b.len(), 0int, 0int,
{
    if b.len() == 0 {
        Parsed::Incomplete
    } else if b[0] == 43u8 || b[0] == 45u8 || b[0] == 58u8 || b[0] == 36u8 || b[0] == 42u8 {
        match line_of(b) {
            Line::Missing => Parsed::Incomplete,
            Line::BadUtf8(m) => Parsed::Protocol(bad_line_message(m)),
            Line::Text(t, h) => {
                if b[0] == 43u8 {
                    Parsed::Done(Frame::Simple(t), h)
                } else if b[0] == 45u8 {
                    Parsed::Done(Frame::Error(t), h)
                } else if b[0] == 58u8 {
                    match decimal_i64(t) {
                        Some(v) => Parsed::Done(Frame::Integer(v), h),
                        None => Parsed::Protocol("Invalid integer: "@ + int_error_text(t)),
                    }
                } else if b[0] == 36u8 {
                    match decimal_i64(t) {
                        None => Parsed::Protocol("Invalid bulk string length: "@ + int_error_text(t)),
                        Some(n) => if n == -1 {
                            Parsed::Done(Frame::Bulk(None), h)
                        } else if n < 0 {
                            Parsed::Protocol("Negative bulk string length"@)
                        } else if b.len() < h + n + 2 {
                            Parsed::Incomplete
                        } else if !is_crlf_at(b, h + n) {
                            Parsed::Protocol("Missing CRLF after bulk string data"@)
                        } else {
                            let data = b.subrange(h as int, h + n);
                            if valid_utf8(data) {
                                Parsed::Done(Frame::Bulk(Some(decode_utf8(data))), (h + n + 2) as nat)
                            } else {
                                Parsed::Protocol("Invalid UTF-8 in bulk string: "@ + utf8_error_text(data))
                            }
                        },
                    }
                } else {
                    match decimal_i64(t) {
                        None => Parsed::Protocol("Invalid array length: "@ + int_error_text(t)),
                        Some(n) => if n == -1 {
                            Parsed::Done(Frame::Array(None), h)
                        } else if n < 0 {
                            Parsed::Protocol("Negative array length"@)
                        } else {
                            proof {
                                lemma_line_bounds(b);
                            }
                            parse_items(b.subrange(h as int, b.len() as int), h, n as nat, seq![])
                        },
                    }
                }
            },
        }
    } else {
        Parsed::Protocol("Unknown type byte: "@ + seq![b[0] as char])
    }
}

/// Parses `left` more values from `rest`, `used` bytes having been taken
/// before it, the values so far being `acc`.
pub open spec fn parse_items(rest: Seq<u8>, used: nat, left: nat, acc: Seq<Frame>) -> Parsed
    decreases rest.len(), 1int, left,
{
    if left == 0 {
        Parsed::Done(Frame::Array(Some(acc)), used)
    } else {
        match parse_frame(rest) {
            Parsed::Done(f, k) => if k <= rest.len() {
                parse_items(rest.subrange(k as int, rest.len() as int), used + k, (left - 1) as nat, acc.push(f))
            } else {
                Parsed::Incomplete
            },
            Parsed::Incomplete => Parsed::Incomplete,
            Parsed::Protocol(m) => Parsed::Protocol(m),
        }
    }
}


/// `r` is what `p` says parsing comes to.
pub open spec fn parse_agrees(r: Result<(RespValue, usize), RespError>, p: Parsed) -> bool {
    match r {
        Ok((v, n)) => p == Parsed::Done(v@, n as nat),
        Err(RespError::Incomplete) => p is Incomplete,
        Err(RespError::Protocol(m)) => p == Parsed::Protocol(m@),
    }
}

/// Parses one RESP value from the start of `buf`, and says how many bytes it
/// took.
pub fn parse(buf: &[u8]) -> (r: Result<(RespValue, usize), RespError>)
    ensures
        parse_agrees(r, parse_frame(buf@)),
    decreases buf@.len(), 1int,
{
    if buf.len() == 0 {
        return Err(RespError::Incomplete);
    }
    let t = buf[0];
    if t == 43u8 {
        parse_simple_string(buf)
    } else if t == 45u8 {
        parse_error(buf)
    } else if t == 58u8 {
        parse_integer(buf)
    } else if t == 36u8 {
        parse_bulk_string(buf)
    } else if t == 42u8 {
        parse_array(buf)
    } else {
        let c = char_text(t as char);
        Err(RespError::Protocol(join("Unknown type byte: ", c.as_str())))
    }
}

/// The index of the first CR LF at or after `start`.
fn find_crlf(buf: &[u8], start: usize) -> (r: Option<usize>)
    requires
        start < usize::MAX,
    ensures
        r matches Some(i) ==> first_crlf(buf@, start as nat) == Some(i as nat),
        r is None ==> first_crlf(buf@, start as nat) is None,
{
    let mut i = start;
    while i + 1 < buf.len()
        invariant
            start <= i < usize::MAX,
            first_crlf(buf@, start as nat) == first_crlf(buf@, i as nat),
        decreases buf@.len() - i,
    {
        if buf[i] == 13u8 && buf[i + 1] == 10u8 {
            return Some(i);
        }
        i += 1;
    }
    None
}

/// Reads the line after the type byte: its text and the offset past its CR LF.
fn read_line(buf: &[u8]) -> (r: Result<(&str, usize), RespError>)
    ensures
        match (r, line_of(buf@)) {
            (Ok((s, h)), Line::Text(t, h2)) => s@ == t && h == h2,
            (Err(RespError::Incomplete), Line::Missing) => true,
            (Err(RespError::Protocol(m)), Line::BadUtf8(d)) => m@ == bad_line_message(d),
            _ => false,
        },
{
    let pos = match find_crlf(buf, 1) {
        Some(p) => p,
        None => {
            return Err(RespError::Incomplete);
        },
    };
    proof {
        lemma_first_crlf(buf@, 1);
        assert(is_crlf_at(buf@, pos as int));
    }
    assert(pos + 2 <= buf.len());
    match utf8_str(&buf[1..pos]) {
        Ok(line) => {
            proof {
                encode_utf8_decode_utf8(line@);
            }
            Ok((line, pos + 2))
        },
        Err(m) => Err(RespError::Protocol(join("Invalid UTF-8 in line: ", m.as_str()))),
    }
}

fn parse_simple_string(buf: &[u8]) -> (r: Result<(RespValue, usize), RespError>)
    requires
        buf@.len() > 0,
        buf@[0] == 43u8,
    ensures
        parse_agrees(r, parse_frame(buf@)),
{
    match read_line(buf) {
        Ok((line, consumed)) => Ok((RespValue::SimpleString(line.to_owned()), consumed)),
        Err(e) => Err(e),
    }
}

fn parse_error(buf: &[u8]) -> (r: Result<(RespValue, usize), RespError>)
    requires
        buf@.len() > 0,
        buf@[0] == 45u8,
    ensures
        parse_agrees(r, parse_frame(buf@)),
{
    match read_line(buf) {
        Ok((line, consumed)) => Ok((RespValue::Error(line.to_owned()), consumed)),
        Err(e) => Err(e),
    }
}

fn parse_integer(buf: &[u8]) -> (r: Result<(RespValue, usize), RespError>)
    requires
        buf@.len() > 0,
        buf@[0] == 58u8,
    ensures
        parse_agrees(r, parse_frame(buf@)),
{
    let (line, consumed) = match read_line(buf) {
        Ok(x) => x,
        Err(e) => {
            return Err(e);
        },
    };
    match parse_i64(line) {
        Ok(value) => Ok((RespValue::Integer(value), consumed)),
        Err(m) => Err(RespError::Protocol(join("Invalid integer: ", m.as_str()))),
    }
}

fn parse_bulk_string(buf: &[u8]) -> (r: Result<(RespValue, usize), RespError>)
    requires
        buf@.len() > 0,
        buf@[0] == 36u8,
    ensures
        parse_agrees(r, parse_frame(buf@)),
{
    let (line, header_len) = match read_line(buf) {
        Ok(x) => x,
        Err(e) => {
            return Err(e);
        },
    };
    proof {
        lemma_line_bounds(buf@);
    }
    let data_len = match parse_i64(line) {
        Ok(v) => v,
        Err(m) => {
            return Err(RespError::Protocol(join("Invalid bulk string length: ", m.as_str())));
        },
    };
    if data_len == -1 {
        return Ok((RespValue::BulkString(None), header_len));
    }
    if data_len < 0 {
        return Err(RespError::Protocol("Negative bulk string length".to_owned()));
    }
    let room = buf.len() - header_len;
    if (data_len as u64) > (room as u64) {
        return Err(RespError::Incomplete);
    }
    let n = data_len as usize;
    if room - n < 2 {
        return Err(RespError::Incomplete);
    }
    let total_len = header_len + n + 2;
    if buf[header_len + n] != 13u8 || buf[header_len + n + 1] != 10u8 {
        return Err(RespError::Protocol("Missing CRLF after bulk string data".to_owned()));
    }
    match utf8_str(&buf[header_len..header_len + n]) {
        Ok(data) => {
            proof {
                encode_utf8_decode_utf8(data@);
            }
            Ok((RespValue::BulkString(Some(data.to_owned())), total_len))
        },
        Err(m) => Err(RespError::Protocol(join("Invalid UTF-8 in bulk string: ", m.as_str()))),
    }
}

fn parse_array(buf: &[u8]) -> (r: Result<(RespValue, usize), RespError>)
    requires
        buf@.len() > 0,
        buf@[0] == 42u8,
    ensures
        parse_agrees(r, parse_frame(buf@)),
    decreases buf@.len(), 0int,
{
    let (line, header_len) = match read_line(buf) {
        Ok(x) => x,
        Err(e) => {
            return Err(e);
        },
    };
    proof {
        lemma_line_bounds(buf@);
    }
    let array_len = match parse_i64(line) {
        Ok(v) => v,
        Err(m) => {
            return Err(RespError::Protocol(join("Invalid array length: ", m.as_str())));
        },
    };
    if array_len == -1 {
        return Ok((RespValue::Array(None), header_len));
    }
    if array_len < 0 {
        return Err(RespError::Protocol("Negative array length".to_owned()));
    }
    let mut offset = header_len;
    let mut values: Vec<RespValue> = Vec::new();
    let mut i: i64 = 0;
    assert(frames_of(values@) =~= Seq::<Frame>::empty());
    while i < array_len
        invariant
            3 <= header_len <= offset <= buf@.len(),
            0 <= i <= array_len,
            parse_items(buf@.subrange(offset as int, buf@.len() as int), offset as nat, (array_len - i) as nat, frames_of(values@))
                == parse_frame(buf@),
        decreases array_len - i,
    {
        let rest = &buf[offset..buf.len()];
        let (value, consumed) = match parse(rest) {
            Ok(x) => x,
            Err(e) => {
                return Err(e);
            },
        };
        proof {
            lemma_parse_length(rest@);
        }
        let ghost before = frames_of(values@);
        values.push(value);
        assert(frames_of(values@) =~= before.push(value@));
        assert(rest@.subrange(consumed as int, rest@.len() as int) =~= buf@.subrange(offset + consumed, buf@.len() as int));
        offset = offset + consumed;
        i = i + 1;
    }
    Ok((RespValue::Array(Some(values)), offset))
}


/// The CR LF that ends every line.
pub open spec fn crlf() -> Seq<u8> {
    seq![13u8, 10u8]
}

/// The RESP encoding of a frame.
pub open spec fn encode_frame(f: Frame) -> Seq<u8>
    decreases f,
{
    match f {
        Frame::Simple(s) => seq![43u8] + encode_utf8(s) + crlf(),
        Frame::Error(s) => seq![45u8] + encode_utf8(s) + crlf(),
        Frame::Integer(i) => seq![58u8] + ascii_bytes(int_text(i as int)) + crlf(),
        Frame::Bulk(None) => seq![36u8] + ascii_bytes(int_text(-1)) + crlf(),
        Frame::Bulk(Some(s)) => seq![36u8] + ascii_bytes(nat_digits(encode_utf8(s).len())) + crlf()
            + encode_utf8(s) + crlf(),
        Frame::Array(None) => seq![42u8] + ascii_bytes(int_text(-1)) + crlf(),
        Frame::Array(Some(items)) => seq![42u8] + ascii_bytes(nat_digits(items.len())) + crlf()
            + encode_items(items),
    }
}

/// The encodings of the frames, one after the other.
pub open spec fn encode_items(items: Seq<Frame>) -> Seq<u8>
    decreases items,
{
    if items.len() == 0 {
        seq![]
    } else {
        encode_frame(items[0]) + encode_items(items.drop_first())
    }
}

pub proof fn lemma_encode_items_push(items: Seq<Frame>, f: Frame)
    ensures
        encode_items(items.push(f)) == encode_items(items) + encode_frame(f),
    decreases items.len(),
{
    if items.len() == 0 {
        assert(items.push(f).drop_first() =~= Seq::<Frame>::empty());
        assert(encode_items(items.push(f).drop_first()) =~= Seq::<u8>::empty());
        assert(encode_items(items.push(f)) =~= encode_frame(f));
    } else {
        assert(items.push(f).drop_first() =~= items.drop_first().push(f));
        lemma_encode_items_push(items.drop_first(), f);
        assert(encode_items(items.push(f)) =~= encode_items(items) + encode_frame(f));
    }
}

impl RespValue {
    /// The error reply with this message.
    pub fn err(msg: &str) -> (r: RespValue)
        ensures
            r@ == Frame::Error(msg@),
    {
        RespValue::Error(msg.to_owned())
    }

    /// The bulk string reply holding `s`.
    pub fn bulk(s: String) -> (r: RespValue)
        ensures
            r@ == Frame::Bulk(Some(s@)),
    {
        RespValue::BulkString(Some(s))
    }

    /// The null bulk string reply.
    pub fn null() -> (r: RespValue)
        ensures
            r@ == Frame::Bulk(None),
    {
        RespValue::BulkString(None)
    }

    /// The simple string reply `OK`.
    pub fn ok() -> (r: RespValue)
        ensures
            r@ == Frame::Simple("OK"@),
    {
        RespValue::SimpleString("OK".to_owned())
    }

    /// The RESP encoding of this value.
    pub fn serialize(&self) -> (r: Vec<u8>)
        ensures
            r@ == encode_frame(self@),
    {
        let mut out: Vec<u8> = Vec::new();
        self.write_to(&mut out);
        assert(out@ =~= encode_frame(self@));
        out
    }

    /// Appends the RESP encoding of this value to `out`.
    pub fn write_to(&self, out: &mut Vec<u8>)
        ensures
            final(out)@ == old(out)@ + encode_frame(self@),
        decreases self,
    {
        let ghost start = out@;
        match self {
            RespValue::SimpleString(s) => {
                out.push(43u8);
                push_str_bytes(out, s.as_str());
                out.push(13u8);
                out.push(10u8);
                assert(out@ =~= start + encode_frame(self@));
            },
            RespValue::Error(s) => {
                out.push(45u8);
                push_str_bytes(out, s.as_str());
                out.push(13u8);
                out.push(10u8);
                assert(out@ =~= start + encode_frame(self@));
            },
            RespValue::Integer(i) => {
                out.push(58u8);
                push_int(out, *i);
                out.push(13u8);
                out.push(10u8);
                assert(out@ =~= start + encode_frame(self@));
            },
            RespValue::BulkString(None) => {
                out.push(36u8);
                push_int(out, -1i64);
                out.push(13u8);
                out.push(10u8);
                assert(out@ =~= start + encode_frame(self@));
            },
            RespValue::BulkString(Some(s)) => {
                out.push(36u8);
                let n = s.as_str().as_bytes().len();
                push_digits(out, n as u64);
                out.push(13u8);
                out.push(10u8);
                push_str_bytes(out, s.as_str());
                out.push(13u8);
                out.push(10u8);
                assert(out@ =~= start + encode_frame(self@));
            },
            RespValue::Array(None) => {
                out.push(42u8);
                push_int(out, -1i64);
                out.push(13u8);
                out.push(10u8);
                assert(out@ =~= start + encode_frame(self@));
            },
            RespValue::Array(Some(items)) => {
                out.push(42u8);
                push_digits(out, items.len() as u64);
                out.push(13u8);
                out.push(10u8);
                let ghost head = out@;
                let ghost frames = frames_of(items@);
                let mut i: usize = 0;
                assert(frames.take(0) =~= Seq::<Frame>::empty());
                while i < items.len()
                    invariant
                        i <= items@.len(),
                        *self == RespValue::Array(Some(*items)),
                        frames == frames_of(items@),
                        out@ == head + encode_items(frames.take(i as int)),
                    decreases items@.len() - i,
                {
                    proof {
                        let ghost opt = (*self)->Array_0;
                        assert(decreases_to!(*self => (*self)->Array_0));
                        assert(decreases_to!(opt => opt->0));
                        assert(opt->0 == *items);
                        assert(decreases_to!(*items => items@));
                        assert(decreases_to!(items@ => items@[i as int]));
                    }
                    items[i].write_to(out);
                    proof {
                        assert(frames.take(i + 1) =~= frames.take(i as int).push(frames[i as int]));
                        lemma_encode_items_push(frames.take(i as int), frames[i as int]);
                    }
                    i = i + 1;
                }
                assert(frames.take(i as int) =~= frames);
                assert(out@ =~= start + encode_frame(self@));
            },
        }
    }
}

impl RespError {
    /// The text of this error as it is shown to a client.
    pub fn message(&self) -> (r: String)
        ensures
            r@ == error_text(*self),
    {
        match self {
            RespError::Incomplete => "Incomplete data - need more bytes".to_owned(),
            RespError::Protocol(m) => join("Protocol error: ", m.as_str()),
        }
    }
}

/// The text of a parse error as it is shown to a client.
pub open spec fn error_text(e: RespError) -> Seq<char> {
    match e {
        RespError::Incomplete => "Incomplete data - need more bytes"@,
        RespError::Protocol(m) => "Protocol error: "@ + m@,
    }
}


/// No CR LF pair stands inside these bytes.
pub open spec fn no_crlf(b: Seq<u8>) -> bool {
    forall|i: int| 0 <= i < b.len() - 1 ==> !(#[trigger] b[i] == 13u8 && b[i + 1] == 10u8)
}

/// A frame that its encoding describes faithfully: simple strings and errors
/// hold no CR LF, and every length fits in an `i64`.
pub open spec fn frame_wf(f: Frame) -> bool
    decreases f,
{
    match f {
        Frame::Simple(s) => no_crlf(encode_utf8(s)),
        Frame::Error(s) => no_crlf(encode_utf8(s)),
        Frame::Bulk(Some(s)) => encode_utf8(s).len() <= i64::MAX,
        Frame::Array(Some(items)) => items.len() <= i64::MAX && items_wf(items),
        _ => true,
    }
}

/// Every frame of the list is well formed.
pub open spec fn items_wf(items: Seq<Frame>) -> bool
    decreases items,
{
    items.len() == 0 || (frame_wf(items[0]) && items_wf(items.drop_first()))
}

proof fn lemma_first_crlf_found(b: Seq<u8>, start: nat, p: nat)
    requires
        start <= p,
        is_crlf_at(b, p as int),
        forall|j: int| start <= j < p ==> !is_crlf_at(b, j),
    ensures
        first_crlf(b, start) == Some(p),
    decreases p - start,
{
    if start < p {
        lemma_first_crlf_found(b, start + 1, p);
    }
}

/// A line of bytes with no CR LF in it is read back whole.
pub proof fn lemma_read_line(tag: u8, body: Seq<u8>, tail: Seq<u8>)
    requires
        no_crlf(body),
        valid_utf8(body),
    ensures
        line_of(seq![tag] + body + crlf() + tail) == Line::Text(decode_utf8(body), body.len() + 3),
{
    let b = seq![tag] + body + crlf() + tail;
    let p = body.len() + 1;
    assert forall|j: int| 1 <= j < p implies !is_crlf_at(b, j) by {
        assert(b[j] == body[j - 1]);
        if j + 1 < p {
            assert(b[j + 1] == body[j]);
        } else {
            assert(b[j + 1] == 13u8);
        }
    }
    assert(b[p as int] == 13u8 && b[p as int + 1] == 10u8);
    lemma_first_crlf_found(b, 1, p as nat);
    assert(b.subrange(1, p as int) =~= body);
}

/// The decimal text of a number has no CR LF and is its own UTF-8.
pub proof fn lemma_number_line(i: i64)
    ensures
        no_crlf(ascii_bytes(int_text(i as int))),
        valid_utf8(ascii_bytes(int_text(i as int))),
        decode_utf8(ascii_bytes(int_text(i as int))) == int_text(i as int),
{
    lemma_int_text_roundtrip(i);
    let t = int_text(i as int);
    lemma_ascii_encoding(t);
    encode_utf8_valid_utf8(t);
    encode_utf8_decode_utf8(t);
    let b = ascii_bytes(t);
    assert forall|k: int| 0 <= k < b.len() - 1 implies !(#[trigger] b[k] == 13u8 && b[k + 1] == 10u8) by {
        if i < 0 {
            let m = (-(i as int)) as nat;
            lemma_nat_digits(m);
            if k == 0 {
                assert(t[0] == '-');
            } else {
                assert(t[k] == nat_digits(m)[k - 1]);
                assert(is_digit(nat_digits(m)[k - 1]));
            }
        } else {
            lemma_nat_digits(i as nat);
            assert(is_digit(t[k]));
        }
    }
}

/// Parsing the encoding of a well-formed frame, with any bytes after it,
/// gives back that frame and the length of its encoding.
pub proof fn lemma_parse_encode(f: Frame, rest: Seq<u8>)
    requires
        frame_wf(f),
    ensures
        parse_frame(encode_frame(f) + rest) == Parsed::Done(f, encode_frame(f).len()),
    decreases f, 0int,
{
    let b = encode_frame(f) + rest;
    match f {
        Frame::Simple(s) => {
            encode_utf8_valid_utf8(s);
            encode_utf8_decode_utf8(s);
            lemma_read_line(43u8, encode_utf8(s), rest);
        },
        Frame::Error(s) => {
            encode_utf8_valid_utf8(s);
            encode_utf8_decode_utf8(s);
            lemma_read_line(45u8, encode_utf8(s), rest);
        },
        Frame::Integer(i) => {
            lemma_number_line(i);
            lemma_int_text_roundtrip(i);
            lemma_read_line(58u8, ascii_bytes(int_text(i as int)), rest);
        },
        Frame::Bulk(None) => {
            lemma_number_line(-1i64);
            lemma_int_text_roundtrip(-1i64);
            lemma_read_line(36u8, ascii_bytes(int_text(-1)), rest);
        },
        Frame::Array(None) => {
            lemma_number_line(-1i64);
            lemma_int_text_roundtrip(-1i64);
            lemma_read_line(42u8, ascii_bytes(int_text(-1)), rest);
        },
        Frame::Bulk(Some(s)) => {
            let e = encode_utf8(s);
            let n = e.len() as i64;
            lemma_number_line(n);
            lemma_int_text_roundtrip(n);
            let d = ascii_bytes(int_text(n as int));
            let tail = e + crlf() + rest;
            lemma_read_line(36u8, d, tail);
            assert(b =~= seq![36u8] + d + crlf() + tail);
            let h = d.len() + 3;
            assert(b.subrange(h as int, (h + e.len()) as int) =~= e);
            assert(b[(h + e.len()) as int] == 13u8 && b[(h + e.len() + 1) as int] == 10u8);
            encode_utf8_valid_utf8(s);
            encode_utf8_decode_utf8(s);
        },
        Frame::Array(Some(items)) => {
            let n = items.len() as i64;
            lemma_number_line(n);
            lemma_int_text_roundtrip(n);
            let d = ascii_bytes(int_text(n as int));
            let tail = encode_items(items) + rest;
            lemma_read_line(42u8, d, tail);
            assert(b =~= seq![42u8] + d + crlf() + tail);
            let h = (d.len() + 3) as nat;
            assert(b.subrange(h as int, b.len() as int) =~= tail);
            assert(decreases_to!(f => f->Array_0));
            assert(decreases_to!(f->Array_0 => f->Array_0->0));
            lemma_parse_encode_items(items, rest, h, seq![]);
            assert(Seq::<Frame>::empty() + items =~= items);
        },
    }
}

/// Parsing the encodings of well-formed frames one after another gives them
/// back in order.
pub proof fn lemma_parse_encode_items(items: Seq<Frame>, rest: Seq<u8>, used: nat, acc: Seq<Frame>)
    requires
        items_wf(items),
    ensures
        parse_items(encode_items(items) + rest, used, items.len(), acc)
            == Parsed::Done(Frame::Array(Some(acc + items)), used + encode_items(items).len()),
    decreases items, 0int,
{
    if items.len() == 0 {
        assert(acc + items =~= acc);
        assert(encode_items(items) + rest =~= rest);
    } else {
        let first = items[0];
        let tail = items.drop_first();
        let b = encode_items(items) + rest;
        let after = encode_items(tail) + rest;
        assert(b =~= encode_frame(first) + after);
        lemma_parse_encode(first, after);
        let k = encode_frame(first).len();
        assert(b.subrange(k as int, b.len() as int) =~= after);
        assert(decreases_to!(items => tail));
        lemma_parse_encode_items(tail, rest, used + k, acc.push(first));
        assert(acc.push(first) + tail =~= acc + items);
    }
}


proof fn lemma_first_crlf_none(b: Seq<u8>, start: nat)
    requires
        forall|j: int| start <= j ==> !is_crlf_at(b, j),
    ensures
        first_crlf(b, start) is None,
    decreases b.len() - start,
{
    if start + 1 < b.len() {
        lemma_first_crlf_none(b, start + 1);
    }
}

/// A prefix that stops before the end of a line holds no line yet.
proof fn lemma_line_missing(tag: u8, body: Seq<u8>, tail: Seq<u8>, k: int)
    requires
        no_crlf(body),
        1 <= k < body.len() + 3,
    ensures
        line_of((seq![tag] + body + crlf() + tail).take(k)) is Missing,
{
    let b = seq![tag] + body + crlf() + tail;
    let p = b.take(k);
    assert forall|j: int| 1 <= j implies !is_crlf_at(p, j) by {
        if is_crlf_at(p, j) {
            assert(p[j] == b[j] && p[j + 1] == b[j + 1]);
            if j < body.len() {
                assert(b[j] == body[j - 1] && b[j + 1] == body[j]);
            } else {
                assert(b[j + 1] == 13u8);
            }
        }
    }
    lemma_first_crlf_none(p, 1);
}

/// Every proper prefix of the encoding of a well-formed frame is incomplete:
/// a reader that has seen only part of a value waits for the rest.
pub proof fn lemma_prefix_incomplete(f: Frame, k: int)
    requires
        frame_wf(f),
        0 <= k < encode_frame(f).len(),
    ensures
        parse_frame(encode_frame(f).take(k)) is Incomplete,
    decreases f, 0int,
{
    let b = encode_frame(f);
    let p = b.take(k);
    if k == 0 {
        assert(p.len() == 0);
    } else {
        assert(p[0] == b[0]);
        match f {
            Frame::Simple(s) => {
                assert(b =~= seq![43u8] + encode_utf8(s) + crlf() + Seq::<u8>::empty());
                lemma_line_missing(43u8, encode_utf8(s), Seq::<u8>::empty(), k);
            },
            Frame::Error(s) => {
                assert(b =~= seq![45u8] + encode_utf8(s) + crlf() + Seq::<u8>::empty());
                lemma_line_missing(45u8, encode_utf8(s), Seq::<u8>::empty(), k);
            },
            Frame::Integer(i) => {
                lemma_number_line(i);
                let d = ascii_bytes(int_text(i as int));
                assert(b =~= seq![58u8] + d + crlf() + Seq::<u8>::empty());
                lemma_line_missing(58u8, d, Seq::<u8>::empty(), k);
            },
            Frame::Bulk(None) => {
                lemma_number_line(-1i64);
                let d = ascii_bytes(int_text(-1));
                assert(b =~= seq![36u8] + d + crlf() + Seq::<u8>::empty());
                lemma_line_missing(36u8, d, Seq::<u8>::empty(), k);
            },
            Frame::Array(None) => {
                lemma_number_line(-1i64);
                let d = ascii_bytes(int_text(-1));
                assert(b =~= seq![42u8] + d + crlf() + Seq::<u8>::empty());
                lemma_line_missing(42u8, d, Seq::<u8>::empty(), k);
            },
            Frame::Bulk(Some(s)) => {
                let e = encode_utf8(s);
                let n = e.len() as i64;
                lemma_number_line(n);
                lemma_int_text_roundtrip(n);
                let d = ascii_bytes(int_text(n as int));
                let tail = e + crlf();
                assert(b =~= seq![36u8] + d + crlf() + tail);
                if k < d.len() + 3 {
                    lemma_line_missing(36u8, d, tail, k);
                } else {
                    let t2 = tail.take(k - d.len() - 3);
                    assert(p =~= seq![36u8] + d + crlf() + t2);
                    lemma_read_line(36u8, d, t2);
                }
            },
            Frame::Array(Some(items)) => {
                let n = items.len() as i64;
                lemma_number_line(n);
                lemma_int_text_roundtrip(n);
                let d = ascii_bytes(int_text(n as int));
                let tail = encode_items(items);
                assert(b =~= seq![42u8] + d + crlf() + tail);
                if k < d.len() + 3 {
                    lemma_line_missing(42u8, d, tail, k);
                } else {
                    let h = (d.len() + 3) as nat;
                    let t2 = tail.take(k - h);
                    assert(p =~= seq![42u8] + d + crlf() + t2);
                    lemma_read_line(42u8, d, t2);
                    assert(p.subrange(h as int, p.len() as int) =~= t2);
                    assert(decreases_to!(f => f->Array_0));
                    assert(decreases_to!(f->Array_0 => f->Array_0->0));
                    lemma_items_prefix_incomplete(items, k - h, h, seq![]);
                }
            },
        }
    }
}

/// Every proper prefix of the encodings of well-formed frames, one after
/// another, is incomplete when that many frames are expected.
pub proof fn lemma_items_prefix_incomplete(items: Seq<Frame>, j: int, used: nat, acc: Seq<Frame>)
    requires
        items_wf(items),
        0 <= j < encode_items(items).len(),
    ensures
        parse_items(encode_items(items).take(j), used, items.len(), acc) is Incomplete,
    decreases items, 0int,
{
    let first = items[0];
    let rest = items.drop_first();
    let e0 = encode_frame(first);
    let whole = encode_items(items);
    assert(whole =~= e0 + encode_items(rest));
    let p = whole.take(j);
    if j < e0.len() {
        assert(p =~= e0.take(j));
        lemma_prefix_incomplete(first, j);
    } else {
        let t = encode_items(rest).take(j - e0.len());
        assert(p =~= e0 + t);
        lemma_parse_encode(first, t);
        assert(p.subrange(e0.len() as int, p.len() as int) =~= t);
        assert(decreases_to!(items => rest));
        lemma_items_prefix_incomplete(rest, j - e0.len(), used + e0.len(), acc.push(first));
    }
}

/// `c` holds the first `n` bytes of `b`.
pub open spec fn agrees_to(b: Seq<u8>, c: Seq<u8>, n: int) -> bool {
    &&& 0 <= n <= b.len()
    &&& n <= c.len()
    &&& c.take(n) == b.take(n)
}

/// A CR LF that the first `p + 2` bytes show is found the same way in any
/// buffer that starts with them; a buffer cut before its end shows none.
proof fn lemma_first_crlf_agree(b: Seq<u8>, c: Seq<u8>, s: nat, p: nat)
    requires
        first_crlf(b, s) == Some(p),
        p + 2 <= c.len() ==> agrees_to(b, c, p as int + 2),
        c.len() < p + 2 ==> c == b.take(c.len() as int),
    ensures
        p + 2 <= c.len() ==> first_crlf(c, s) == Some(p),
        c.len() < p + 2 ==> first_crlf(c, s) is None,
    decreases b.len() - s,
{
    let q = p as int;
    let t = s as int;
    lemma_first_crlf(b, s);
    assert(is_crlf_at(b, p as int));
    if p + 2 <= c.len() {
        assert(c[q] == c.take(q + 2)[q] && c[q + 1] == c.take(q + 2)[q + 1]);
        if s < p {
            assert(!is_crlf_at(b, s as int));
            assert(c[t] == c.take(q + 2)[t] && c[t + 1] == c.take(q + 2)[t + 1]);
            assert(!is_crlf_at(c, s as int));
            lemma_first_crlf_agree(b, c, s + 1, p);
        }
    } else {
        if s + 1 < c.len() {
            assert(s < p);
            assert(!is_crlf_at(b, s as int));
            assert(c[t] == b[t] && c[t + 1] == b[t + 1]);
            lemma_first_crlf_agree(b, c, s + 1, p);
        }
    }
}

/// A line that was read from `b` is read the same from any buffer that
/// starts with it, and is missing from any buffer cut before its end.
proof fn lemma_line_agree(b: Seq<u8>, c: Seq<u8>)
    requires
        line_of(b) is Text,
        1 <= c.len(),
        line_of(b)->Text_1 <= c.len() ==> agrees_to(b, c, line_of(b)->Text_1 as int),
        c.len() < line_of(b)->Text_1 ==> c == b.take(c.len() as int),
    ensures
        line_of(b)->Text_1 <= c.len() ==> line_of(c) == line_of(b),
        c.len() < line_of(b)->Text_1 ==> line_of(c) is Missing,
{
    let p = first_crlf(b, 1)->0;
    lemma_first_crlf(b, 1);
    lemma_first_crlf_agree(b, c, 1, p);
    if p + 2 <= c.len() {
        assert(c.subrange(1, p as int) =~= b.subrange(1, p as int)) by {
            assert forall|i: int| 0 <= i < p - 1 implies #[trigger] c.subrange(1, p as int)[i] == b.subrange(1, p as int)[i] by {
                assert(c[i + 1] == c.take(p as int + 2)[i + 1]);
                assert(b[i + 1] == b.take(p as int + 2)[i + 1]);
            }
        }
    }
}

/// Whatever follows a value does not change it: a buffer that starts with
/// the `n` bytes that parsed as a value parses as that value over `n` bytes;
/// one that stops before them is incomplete.
pub proof fn lemma_parse_agree(b: Seq<u8>, c: Seq<u8>)
    requires
        parse_frame(b) is Done,
        parse_frame(b)->Done_1 <= c.len() ==> agrees_to(b, c, parse_frame(b)->Done_1 as int),
        c.len() < parse_frame(b)->Done_1 ==> c == b.take(c.len() as int),
    ensures
        parse_frame(b)->Done_1 <= c.len() ==> parse_frame(c) == parse_frame(b),
        c.len() < parse_frame(b)->Done_1 ==> parse_frame(c) is Incomplete,
    decreases b.len(), 0int, 0int,
{
    let n = parse_frame(b)->Done_1;
    lemma_parse_length(b);
    lemma_line_bounds(b);
    if c.len() == 0 {
        return;
    }
    if n <= c.len() {
        assert(c[0] == c.take(n as int)[0]);
    } else {
        assert(c[0] == b[0]);
    }
    let h = line_of(b)->Text_1;
    if n <= c.len() && h <= n {
        assert(c.take(h as int) =~= c.take(n as int).take(h as int));
        assert(b.take(h as int) =~= b.take(n as int).take(h as int));
    }
    if h <= c.len() && c.len() < n {
        assert(c.take(h as int) =~= b.take(h as int));
    }
    lemma_line_agree(b, c);
    if b[0] == 36u8 && h <= c.len() {
        let t = line_of(b)->Text_0;
        let k = decimal_i64(t)->0;
        if k >= 0 {
            if n <= c.len() {
                assert(is_crlf_at(c, h + k)) by {
                    assert(c[h + k] == c.take(n as int)[h + k] && c[h + k + 1] == c.take(n as int)[h + k + 1]);
                }
                assert(c.subrange(h as int, h + k) =~= b.subrange(h as int, h + k)) by {
                    assert forall|i: int| 0 <= i < k implies #[trigger] c.subrange(h as int, h + k)[i] == b.subrange(h as int, h + k)[i] by {
                        assert(c[h + i] == c.take(n as int)[h + i]);
                    }
                }
            }
        }
    }
    if b[0] == 42u8 && h <= c.len() {
        let t = line_of(b)->Text_0;
        let k = decimal_i64(t)->0;
        if k >= 0 {
            let rb = b.subrange(h as int, b.len() as int);
            let rc = c.subrange(h as int, c.len() as int);
            lemma_items_length(rb, h, k as nat, seq![]);
            if n <= c.len() {
                assert(rc.take(n - h) =~= rb.take(n - h)) by {
                    assert forall|i: int| 0 <= i < n - h implies #[trigger] rc.take(n - h)[i] == rb.take(n - h)[i] by {
                        assert(c[h + i] == c.take(n as int)[h + i]);
                    }
                }
            } else {
                assert(rc =~= rb.take(rc.len() as int));
            }
            lemma_items_agree(rb, rc, h, k as nat, seq![]);
        }
    }
}

/// The values of an array, like one value, are not changed by what follows
/// them, and are incomplete when cut before their end.
proof fn lemma_items_agree(rb: Seq<u8>, rc: Seq<u8>, used: nat, left: nat, acc: Seq<Frame>)
    requires
        parse_items(rb, used, left, acc) is Done,
        parse_items(rb, used, left, acc)->Done_1 - used <= rc.len()
            ==> agrees_to(rb, rc, parse_items(rb, used, left, acc)->Done_1 - used),
        rc.len() < parse_items(rb, used, left, acc)->Done_1 - used ==> rc == rb.take(rc.len() as int),
    ensures
        parse_items(rb, used, left, acc)->Done_1 - used <= rc.len()
            ==> parse_items(rc, used, left, acc) == parse_items(rb, used, left, acc),
        rc.len() < parse_items(rb, used, left, acc)->Done_1 - used ==> parse_items(rc, used, left, acc) is Incomplete,
    decreases rb.len(), 1int, left,
{
    let u = parse_items(rb, used, left, acc)->Done_1;
    lemma_items_length(rb, used, left, acc);
    if left > 0 {
        let k = parse_frame(rb)->Done_1;
        let f = parse_frame(rb)->Done_0;
        lemma_parse_length(rb);
        let rb2 = rb.subrange(k as int, rb.len() as int);
        lemma_items_length(rb2, used + k, (left - 1) as nat, acc.push(f));
        if u - used <= rc.len() {
            assert(rc.take(k as int) =~= rc.take(u - used).take(k as int));
            assert(rb.take(k as int) =~= rb.take(u - used).take(k as int));
        }
        if k <= rc.len() && rc.len() < u - used {
            assert(rc.take(k as int) =~= rb.take(k as int));
        }
        lemma_parse_agree(rb, rc);
        if k <= rc.len() {
            let rc2 = rc.subrange(k as int, rc.len() as int);
            if u - used <= rc.len() {
                let w = u - used - k;
                assert(rc2.take(w) =~= rb2.take(w)) by {
                    assert forall|i: int| 0 <= i < w implies #[trigger] rc2.take(w)[i] == rb2.take(w)[i] by {
                        assert(rc[k + i] == rc.take(u - used)[k + i]);
                    }
                }
            } else {
                assert(rc2 =~= rb2.take(rc2.len() as int));
            }
            lemma_items_agree(rb2, rc2, used + k, (left - 1) as nat, acc.push(f));
        }
    }
}

} // verus!
