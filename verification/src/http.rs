//! Reading replies over a connection that stays open.
//!
//! The connection is read by whoever holds it; a [`Reply`] says what it wants
//! next - a line, a number of bytes, or all that is left - and takes it in.
use vstd::prelude::*;
use vstd::slice::slice_subrange;
use vstd::utf8::{encode_utf8, valid_utf8};

use crate::client::Error;
use crate::text::{begins, chars_of, contains, digit_value, digits_value, integer_in, occurs, parse_integer, push_text, starts_with, text_of, trim, trimmed, value_of_digit, without_plus};

verus! {

/// The request for `path` on `host`.
pub open spec fn request_text(path: Seq<char>, host: Seq<char>) -> Seq<char> {
    "GET "@ + path + " HTTP/1.1\r\nHost: "@ + host + "\r\nConnection: keep-alive\r\n\r\n"@
}

/// The request for `path` on `host`.
pub fn request(path: &str, host: &str) -> (r: String)
    ensures
        r@ == request_text(path@, host@),
{
    let mut out = chars_of("GET ");
    push_text(&mut out, path);
    push_text(&mut out, " HTTP/1.1\r\nHost: ");
    push_text(&mut out, host);
    push_text(&mut out, "\r\nConnection: keep-alive\r\n\r\n");
    text_of(out.as_slice())
}

/// `String::from_utf8` gives the text whose bytes these are, or an error where
/// they are no UTF-8. What the error says is not stated.
#[verifier::external_body]
fn text_of_bytes(bytes: Vec<u8>) -> (r: Result<String, String>)
    ensures
        match r {
            Ok(t) => valid_utf8(bytes@) && encode_utf8(t@) == bytes@,
            Err(_) => !valid_utf8(bytes@),
        },
{
    String::from_utf8(bytes).map_err(|e| e.to_string())
}

/// A text in quotes, with what cannot be printed escaped.
pub uninterp spec fn quoted_text(s: Seq<char>) -> Seq<char>;

/// `str`'s `Debug` puts a text in quotes and escapes what cannot be printed;
/// which characters those are is not stated.
#[verifier::external_body]
fn quoted(s: &str) -> (r: String)
    ensures
        r@ == quoted_text(s@),
{
    format!("{:?}", s)
}

/// What a reply is at.
#[derive(Debug, Clone, Copy, PartialEq, Eq, Structural)]
pub enum Stage {
    Status,
    Headers,
    /// The body, of so many bytes.
    Body(usize),
    ChunkSize,
    /// A chunk of so many bytes.
    ChunkData(usize),
    /// The line end behind a chunk.
    ChunkEnd,
    /// The line behind the last chunk.
    Trailer,
    /// The body, up to the end of the connection.
    ToEnd,
    Done,
}

/// What a reply wants next.
#[derive(Debug, Clone, Copy, PartialEq, Eq, Structural)]
pub enum Want {
    Line,
    Bytes(usize),
    Rest,
    Nothing,
}

/// A reply as far as it was read.
pub struct Reply {
    pub stage: Stage,
    pub content_length: Option<usize>,
    pub chunked: bool,
    /// Whether the connection is of no use afterwards.
    pub server_close: bool,
    pub body: Vec<char>,
}

/// `c` in lower case, as far as the names of headers go: the letters of the
/// Latin alphabet, and the one sign beyond them that has such a letter for its
/// lower case, the Kelvin sign.
pub open spec fn header_lower(c: char) -> char {
    if c == '\u{212a}' {
        'k'
    } else {
        crate::number::lower(c)
    }
}

/// A header in lower case.
pub open spec fn header_lowered(s: Seq<char>) -> Seq<char> {
    s.map_values(|c: char| header_lower(c))
}

/// `line` without the line ends behind it.
pub open spec fn without_line_end(line: Seq<char>) -> Seq<char>
    decreases line.len(),
{
    if line.len() > 0 && (line.last() == '\r' || line.last() == '\n') {
        without_line_end(line.drop_last())
    } else {
        line
    }
}

/// The contents of a reply as far as it was read.
pub struct ReplyView {
    pub stage: Stage,
    pub content_length: Option<usize>,
    pub chunked: bool,
    pub server_close: bool,
    pub body: Seq<char>,
}

impl View for Reply {
    type V = ReplyView;

    open spec fn view(&self) -> ReplyView {
        ReplyView {
            stage: self.stage,
            content_length: self.content_length,
            chunked: self.chunked,
            server_close: self.server_close,
            body: self.body@,
        }
    }
}

/// The number that a header's value spells.
pub open spec fn length_in(s: Seq<char>) -> Option<usize> {
    match integer_in(trimmed(s), 10, usize::MAX as nat) {
        Some(v) => Some(v as usize),
        None => None,
    }
}

/// `v` after the header `h`.
pub open spec fn after_header(v: ReplyView, h: Seq<char>) -> ReplyView {
    let low: Seq<char> = header_lowered(h);
    if begins(low, "content-length:"@) {
        match length_in(h.skip(15)) {
            Some(n) => ReplyView { content_length: Some(n), ..v },
            None => v,
        }
    } else if begins(low, "transfer-encoding:"@) && occurs(low, "chunked"@) {
        ReplyView { chunked: true, ..v }
    } else if begins(low, "connection:"@) && occurs(low, "close"@) {
        ReplyView { server_close: true, ..v }
    } else {
        v
    }
}

/// `v` once its headers are over: a length says how long the body is, chunks
/// say it themselves, and else the end of the connection does.
pub open spec fn after_headers(v: ReplyView) -> ReplyView {
    match v.content_length {
        Some(n) => ReplyView { stage: Stage::Body(n), ..v },
        None => if v.chunked {
            ReplyView { stage: Stage::ChunkSize, ..v }
        } else {
            ReplyView { stage: Stage::ToEnd, server_close: true, ..v }
        },
    }
}

/// The size that the line in front of a chunk spells.
pub open spec fn chunk_size(line: Seq<char>) -> Option<usize> {
    match integer_in(trimmed(line), 16, usize::MAX as nat) {
        Some(v) => Some(v as usize),
        None => None,
    }
}

/// The number of digits at the front of `s`.
pub open spec fn digit_run(s: Seq<char>, radix: nat) -> nat
    decreases s.len(),
{
    if s.len() > 0 && digit_value(s[0], radix) is Some {
        1 + digit_run(s.skip(1), radix)
    } else {
        0
    }
}

/// Why `s` spells no integer up to `max`.
pub open spec fn integer_fault(s: Seq<char>, radix: nat, max: nat) -> Seq<char> {
    let body: Seq<char> = without_plus(s);
    let run: Seq<char> = body.take(digit_run(body, radix) as int);
    if s.len() == 0 {
        "cannot parse integer from empty string"@
    } else if digits_value(run, radix) is Some && digits_value(run, radix)->0 > max {
        "number too large to fit in target type"@
    } else {
        "invalid digit found in string"@
    }
}

/// What is said of a line that spells no size of a chunk.
pub open spec fn chunk_fault(line: Seq<char>) -> Seq<char> {
    "bad chunk size "@ + quoted_text(trimmed(line)) + ": "@ + integer_fault(
        trimmed(line),
        16,
        usize::MAX as nat,
    )
}

/// What a stage wants.
pub open spec fn wanted(stage: Stage) -> Want {
    match stage {
        Stage::Status | Stage::Headers | Stage::ChunkSize | Stage::ChunkEnd | Stage::Trailer =>
            Want::Line,
        Stage::Body(n) => Want::Bytes(n),
        Stage::ChunkData(n) => Want::Bytes(n),
        Stage::ToEnd => Want::Rest,
        Stage::Done => Want::Nothing,
    }
}

/// `v` after a line, or nothing where the line ends the reply in an error: no
/// status line, or a chunk without a size.
pub open spec fn after_line(v: ReplyView, line: Seq<char>) -> Option<ReplyView> {
    match v.stage {
        Stage::Status => if line.len() == 0 {
            None
        } else {
            Some(ReplyView { stage: Stage::Headers, ..v })
        },
        Stage::Headers => {
            let h: Seq<char> = without_line_end(line);
            if h.len() == 0 {
                Some(after_headers(v))
            } else {
                Some(after_header(v, h))
            }
        },
        Stage::ChunkSize => match chunk_size(line) {
            None => None,
            Some(n) => if n == 0 {
                Some(ReplyView { stage: Stage::Trailer, ..v })
            } else {
                Some(ReplyView { stage: Stage::ChunkData(n), ..v })
            },
        },
        Stage::ChunkEnd => Some(ReplyView { stage: Stage::ChunkSize, ..v }),
        Stage::Trailer => Some(ReplyView { stage: Stage::Done, ..v }),
        _ => Some(v),
    }
}

/// `v` after the text of a piece of the body.
pub open spec fn after_text(v: ReplyView, t: Seq<char>) -> ReplyView {
    match v.stage {
        Stage::Body(_) | Stage::ToEnd => ReplyView { stage: Stage::Done, body: v.body + t, ..v },
        Stage::ChunkData(_) => ReplyView { stage: Stage::ChunkEnd, body: v.body + t, ..v },
        _ => v,
    }
}

fn to_header_lowered(s: &[char]) -> (r: Vec<char>)
    ensures
        r@ == header_lowered(s@),
{
    let mut r: Vec<char> = Vec::new();
    let mut i: usize = 0;
    while i < s.len()
        invariant
            i <= s.len(),
            r@ == header_lowered(s@.take(i as int)),
        decreases s.len() - i,
    {
        let c: char = if s[i] == '\u{212a}' {
            'k'
        } else {
            crate::number::to_lower(s[i])
        };
        r.push(c);
        i = i + 1;
        proof {
            assert(r@ =~= header_lowered(s@.take(i as int)));
        }
    }
    proof {
        assert(s@.take(i as int) =~= s@);
    }
    r
}

/// `line` without the line ends behind it.
fn strip_line_end(line: &str) -> (r: Vec<char>)
    ensures
        r@ == without_line_end(line@),
{
    let mut cs = chars_of(line);
    while cs.len() > 0 && (cs[cs.len() - 1] == '\r' || cs[cs.len() - 1] == '\n')
        invariant
            without_line_end(cs@) == without_line_end(line@),
        decreases cs.len(),
    {
        let ghost before = cs@;
        let _ = cs.pop();
        proof {
            assert(cs@ =~= before.drop_last());
        }
    }
    cs
}

/// An unsigned integer that fits an address.
fn parse_size(s: &[char], radix: u64) -> (r: Option<usize>)
    requires
        2 <= radix <= 36,
    ensures
        r == (match integer_in(trimmed(s@), radix as nat, usize::MAX as nat) {
            Some(v) => Some(v as usize),
            None => None::<usize>,
        }),
{
    match parse_integer(trim(s), radix, usize::MAX as u64) {
        Some(v) => Some(v as usize),
        None => None,
    }
}

/// A run of digits has a value and does not begin with a plus sign.
proof fn lemma_digit_run(s: Seq<char>, radix: nat)
    ensures
        digit_run(s, radix) <= s.len(),
        digits_value(s.take(digit_run(s, radix) as int), radix) is Some,
        forall|i: int|
            0 <= i < digit_run(s, radix) ==> digit_value(#[trigger] s[i], radix) is Some,
    decreases s.len(),
{
    let n = digit_run(s, radix);
    if s.len() > 0 && digit_value(s[0], radix) is Some {
        lemma_digit_run(s.skip(1), radix);
        assert forall|i: int| 0 <= i < n implies digit_value(#[trigger] s[i], radix) is Some by {
            if i > 0 {
                assert(s[i] == s.skip(1)[i - 1]);
            }
        }
    }
    lemma_digits_have_value(s.take(n as int), radix);
}

/// Digits have a value.
proof fn lemma_digits_have_value(s: Seq<char>, radix: nat)
    requires
        forall|i: int| 0 <= i < s.len() ==> digit_value(#[trigger] s[i], radix) is Some,
    ensures
        digits_value(s, radix) is Some,
    decreases s.len(),
{
    if s.len() > 0 {
        lemma_digits_have_value(s.drop_last(), radix);
    }
}

/// Why `s` spells no size.
fn size_fault(s: &[char]) -> (r: String)
    ensures
        r@ == integer_fault(s@, 16, usize::MAX as nat),
{
    if s.len() == 0 {
        return "cannot parse integer from empty string".to_string();
    }
    let start: usize = if s[0] == '+' {
        1
    } else {
        0
    };
    let ghost body = without_plus(s@);
    let mut i: usize = start;
    proof {
        assert(body =~= s@.skip(start as int));
    }
    while i < s.len() && value_of_digit(s[i], 16).is_some()
        invariant
            start <= i <= s.len(),
            body == s@.skip(start as int),
            digit_run(body, 16) == i - start + digit_run(s@.skip(i as int), 16),
        decreases s.len() - i,
    {
        proof {
            assert(s@.skip(i as int).skip(1) =~= s@.skip(i + 1));
        }
        i = i + 1;
    }
    let run: &[char] = slice_subrange(s, start, i);
    proof {
        lemma_digit_run(body, 16);
        assert(run@ =~= body.take(digit_run(body, 16) as int));
        if run@.len() > 0 {
            assert(body[0] == run@[0]);
            assert(without_plus(run@) =~= run@);
        }
    }
    if run.len() > 0 && parse_integer(run, 16, usize::MAX as u64).is_none() {
        "number too large to fit in target type".to_string()
    } else {
        "invalid digit found in string".to_string()
    }
}

impl Reply {
    /// A reply of which nothing was read.
    pub fn new() -> (r: Self)
        ensures
            r@ == (ReplyView {
                stage: Stage::Status,
                content_length: None,
                chunked: false,
                server_close: false,
                body: seq![],
            }),
    {
        let body: Vec<char> = Vec::new();
        proof {
            assert(body@ =~= seq![]);
        }
        Reply {
            stage: Stage::Status,
            content_length: None,
            chunked: false,
            server_close: false,
            body,
        }
    }

    /// What the reply wants next.
    pub fn want(&self) -> (w: Want)
        ensures
            w == wanted(self.stage),
    {
        match self.stage {
            Stage::Body(n) => Want::Bytes(n),
            Stage::ChunkData(n) => Want::Bytes(n),
            Stage::ToEnd => Want::Rest,
            Stage::Done => Want::Nothing,
            _ => Want::Line,
        }
    }

    /// Takes in a header.
    fn take_header(&mut self, h: &Vec<char>)
        ensures
            final(self)@ == after_header(old(self)@, h@),
    {
        let low = to_header_lowered(h.as_slice());
        proof {
            reveal_strlit("content-length:");
            assert("content-length:"@.len() == 15);
        }
        if starts_with(low.as_slice(), "content-length:") {
            let value: &[char] = slice_subrange(h.as_slice(), 15, h.len());
            proof {
                assert(value@ =~= h@.skip(15));
            }
            if let Some(n) = parse_size(value, 10) {
                self.content_length = Some(n);
            }
        } else if starts_with(low.as_slice(), "transfer-encoding:") && contains(
            low.as_slice(),
            "chunked",
        ) {
            self.chunked = true;
        } else if starts_with(low.as_slice(), "connection:") && contains(low.as_slice(), "close") {
            self.server_close = true;
        }
    }

    /// Takes in a line, with its line end; an empty one stands for the end of
    /// the connection.
    pub fn take_line(&mut self, line: &str) -> (r: Result<(), Error>)
        ensures
            match after_line(old(self)@, line@) {
                Some(v) => r is Ok && final(self)@ == v,
                None => {
                    &&& final(self)@ == old(self)@
                    &&& match old(self).stage {
                        Stage::Status => r matches Err(Error::Io(m)) && m@
                            == "server closed connection"@,
                        _ => r matches Err(Error::Other(m)) && m@ == chunk_fault(line@),
                    }
                },
            },
    {
        match self.stage {
            Stage::Status => {
                if line.is_empty() {
                    return Err(Error::Io("server closed connection".to_string()));
                }
                self.stage = Stage::Headers;
            },
            Stage::Headers => {
                let h = strip_line_end(line);
                if h.len() == 0 {
                    match self.content_length {
                        Some(n) => {
                            self.stage = Stage::Body(n);
                        },
                        None => {
                            if self.chunked {
                                self.stage = Stage::ChunkSize;
                            } else {
                                self.stage = Stage::ToEnd;
                                self.server_close = true;
                            }
                        },
                    }
                } else {
                    self.take_header(&h);
                }
            },
            Stage::ChunkSize => {
                let cs = chars_of(line);
                match parse_size(cs.as_slice(), 16) {
                    None => {
                        let size: &[char] = trim(cs.as_slice());
                        let mut message = chars_of("bad chunk size ");
                        push_text(&mut message, quoted(text_of(size).as_str()).as_str());
                        push_text(&mut message, ": ");
                        push_text(&mut message, size_fault(size).as_str());
                        return Err(Error::Other(text_of(message.as_slice())));
                    },
                    Some(n) => {
                        if n == 0 {
                            self.stage = Stage::Trailer;
                        } else {
                            self.stage = Stage::ChunkData(n);
                        }
                    },
                }
            },
            Stage::ChunkEnd => {
                self.stage = Stage::ChunkSize;
            },
            Stage::Trailer => {
                self.stage = Stage::Done;
            },
            _ => {},
        }
        Ok(())
    }

    /// Takes in the bytes of a piece of the body.
    pub fn take_bytes(&mut self, bytes: Vec<u8>) -> (r: Result<(), Error>)
        ensures
            valid_utf8(bytes@) ==> r is Ok && exists|t: Seq<char>|
                encode_utf8(t) == bytes@ && final(self)@ == #[trigger] after_text(old(self)@, t),
            !valid_utf8(bytes@) ==> (r matches Err(Error::Other(_))) && final(self)@ == old(self)@,
    {
        match text_of_bytes(bytes) {
            Err(m) => Err(Error::Other(m)),
            Ok(t) => {
                self.take_text(t.as_str());
                Ok(())
            },
        }
    }

    /// Takes in the text of a piece of the body.
    pub fn take_text(&mut self, t: &str)
        ensures
            final(self)@ == after_text(old(self)@, t@),
    {
        match self.stage {
            Stage::Body(_) => {
                push_text(&mut self.body, t);
                self.stage = Stage::Done;
            },
            Stage::ToEnd => {
                push_text(&mut self.body, t);
                self.stage = Stage::Done;
            },
            Stage::ChunkData(_) => {
                push_text(&mut self.body, t);
                self.stage = Stage::ChunkEnd;
            },
            _ => {},
        }
    }

    /// The body, once the reply is complete.
    pub fn finish(&self) -> (r: Option<String>)
        ensures
            self.stage == Stage::Done ==> r is Some && (r->0)@ == self.body@,
            self.stage != Stage::Done ==> r is None,
    {
        match self.stage {
            Stage::Done => Some(text_of(self.body.as_slice())),
            _ => None,
        }
    }
}

/// What looking at a connection without reading from it showed.
#[derive(Debug, Clone, Copy, PartialEq, Eq, Structural)]
pub enum Peek {
    /// It could not be looked at.
    Unknown,
    /// It is at its end.
    End,
    /// It is open and there is nothing to read yet.
    Waiting,
    /// There is something to read.
    Data,
    /// It is broken.
    Broken,
}

/// Whether a connection is kept after a reply.
pub fn keeps_connection(server_close: bool, peek: Peek) -> (keep: bool)
    ensures
        keep == (!server_close && peek != Peek::End && peek != Peek::Broken),
        keep == stays_open(server_close, peek),
{
    if server_close {
        return false;
    }
    match peek {
        Peek::End => false,
        Peek::Broken => false,
        _ => true,
    }
}

/// What is done about a request: whether it failed, and whether it was already
/// repeated on a new connection.
#[derive(Debug, Clone, Copy, PartialEq, Eq, Structural)]
pub enum Attempt {
    /// Give the reply.
    Accept,
    /// Connect anew and ask once more.
    Reconnect,
    /// Give the error.
    GiveUp,
}

/// A request that fails is repeated once, on a new connection.
pub fn next_attempt(failed: bool, repeated: bool) -> (a: Attempt)
    ensures
        a == (if !failed {
            Attempt::Accept
        } else if !repeated {
            Attempt::Reconnect
        } else {
            Attempt::GiveUp
        }),
        a == attempt_after(failed, repeated),
{
    if !failed {
        Attempt::Accept
    } else if !repeated {
        Attempt::Reconnect
    } else {
        Attempt::GiveUp
    }
}

/// A chunk of a body: the line with its size, its text, and the line behind it.
pub struct Chunk {
    pub size_line: Seq<char>,
    pub text: Seq<char>,
    pub end_line: Seq<char>,
}

/// `v` after whole chunks.
pub open spec fn after_chunks(v: ReplyView, chunks: Seq<Chunk>) -> Option<ReplyView>
    decreases chunks.len(),
{
    if chunks.len() == 0 {
        Some(v)
    } else {
        match after_chunks(v, chunks.drop_last()) {
            None => None,
            Some(w) => match after_line(w, chunks.last().size_line) {
                None => None,
                Some(x) => after_line(after_text(x, chunks.last().text), chunks.last().end_line),
            },
        }
    }
}

/// The text of the chunks, one after the other.
pub open spec fn joined(chunks: Seq<Chunk>) -> Seq<char>
    decreases chunks.len(),
{
    if chunks.len() == 0 {
        seq![]
    } else {
        joined(chunks.drop_last()) + chunks.last().text
    }
}

/// A body in chunks is the text of the chunks, one after the other, and ends
/// with the chunk of size zero.
pub proof fn lemma_chunks_joined(v: ReplyView, chunks: Seq<Chunk>, last_line: Seq<char>, trailer: Seq<char>)
    requires
        v.stage == Stage::ChunkSize,
        forall|i: int|
            0 <= i < chunks.len() ==> {
                let n: Option<usize> = chunk_size((#[trigger] chunks[i]).size_line);
                n is Some && n->0 > 0
            },
        chunk_size(last_line) == Some(0usize),
    ensures
        after_chunks(v, chunks) == Some(
            ReplyView { stage: Stage::ChunkSize, body: v.body + joined(chunks), ..v },
        ),
        ({
            let w: ReplyView = after_chunks(v, chunks)->0;
            let x: Option<ReplyView> = after_line(w, last_line);
            &&& x is Some
            &&& after_line(x->0, trailer) == Some(
                ReplyView { stage: Stage::Done, body: v.body + joined(chunks), ..v },
            )
        }),
    decreases chunks.len(),
{
    if chunks.len() == 0 {
        assert(v.body + joined(chunks) =~= v.body);
    } else {
        let front: Seq<Chunk> = chunks.drop_last();
        assert forall|i: int| 0 <= i < front.len() implies {
            let n: Option<usize> = chunk_size((#[trigger] front[i]).size_line);
            n is Some && n->0 > 0
        } by {
            assert(front[i] == chunks[i]);
        }
        lemma_chunks_joined(v, front, last_line, trailer);
        let n: Option<usize> = chunk_size(chunks[chunks.len() - 1].size_line);
        assert(n is Some && n->0 > 0);
        assert((v.body + joined(front)) + chunks.last().text =~= v.body + joined(chunks));
    }
}

/// A length decides before chunks do, and without either the body goes to the
/// end of the connection, which is then closed.
pub proof fn lemma_body_by_headers(v: ReplyView)
    ensures
        v.content_length is Some ==> after_headers(v).stage == Stage::Body(v.content_length->0),
        v.content_length is None && v.chunked ==> after_headers(v).stage == Stage::ChunkSize,
        v.content_length is None && !v.chunked ==> after_headers(v).stage == Stage::ToEnd
            && after_headers(v).server_close,
{
}

/// What headers say, in any case of letters: the length of the body, that it
/// comes in chunks, and that the connection is closed after it. Any other header
/// changes nothing, and none changes what was said before by another.
pub proof fn lemma_headers_say(v: ReplyView, h: Seq<char>)
    ensures
        ({
            let low: Seq<char> = header_lowered(h);
            let w: ReplyView = after_header(v, h);
            let length: bool = begins(low, "content-length:"@);
            let chunks: bool = begins(low, "transfer-encoding:"@) && occurs(low, "chunked"@);
            let closes: bool = begins(low, "connection:"@) && occurs(low, "close"@);
            &&& w.stage == v.stage
            &&& w.body == v.body
            &&& length ==> w.chunked == v.chunked && w.server_close == v.server_close
                && w.content_length == match integer_in(trimmed(h.skip(15)), 10, usize::MAX as nat) {
                Some(n) => Some(n as usize),
                None => v.content_length,
            }
            &&& !length && chunks ==> w.chunked && w.content_length == v.content_length
                && w.server_close == v.server_close
            &&& !length && !chunks && closes ==> w.server_close && w.content_length
                == v.content_length && w.chunked == v.chunked
            &&& !length && !chunks && !closes ==> w == v
        }),
{
}

/// The letters of a header are compared without regard to their case.
pub proof fn lemma_header_case(c: char)
    ensures
        'A' <= c <= 'Z' ==> header_lower(c) as u32 == c as u32 + 32,
        'a' <= c <= 'z' || '0' <= c <= '9' || c == '-' || c == ':' || c == ' ' ==> header_lower(c)
            == c,
{
}

/// A reply is a status line, headers, an empty line and a body. The status line
/// must be there; a line with more than its end is a header.
pub proof fn lemma_lines_of_reply(v: ReplyView, line: Seq<char>)
    ensures
        v.stage == Stage::Status ==> (after_line(v, line) is None <==> line.len() == 0),
        v.stage == Stage::Status && line.len() > 0 ==> after_line(v, line) == Some(
            ReplyView { stage: Stage::Headers, ..v },
        ),
        v.stage == Stage::Headers && without_line_end(line).len() > 0 ==> after_line(v, line)
            == Some(after_header(v, without_line_end(line))),
        v.stage == Stage::Headers && without_line_end(line).len() == 0 ==> after_line(v, line)
            is Some && (after_line(v, line)->0).body == v.body && (after_line(
            v,
            line,
        )->0).content_length == v.content_length,
        v.stage == Stage::ChunkSize ==> (after_line(v, line) is None <==> integer_in(
            trimmed(line),
            16,
            usize::MAX as nat,
        ) is None),
{
}

/// What is cut from the end of a line is its line end.
pub proof fn lemma_line_end(line: Seq<char>)
    ensures
        without_line_end(line).len() <= line.len(),
        without_line_end(line) == line.take(without_line_end(line).len() as int),
        without_line_end(line).len() > 0 ==> without_line_end(line).last() != '\r'
            && without_line_end(line).last() != '\n',
        forall|i: int|
            without_line_end(line).len() <= i < line.len() ==> #[trigger] line[i] == '\r' || line[i]
                == '\n',
    decreases line.len(),
{
    if line.len() > 0 && (line.last() == '\r' || line.last() == '\n') {
        let t = line.drop_last();
        lemma_line_end(t);
        let r = without_line_end(line);
        assert(t.take(r.len() as int) =~= line.take(r.len() as int));
        assert forall|i: int| r.len() <= i < line.len() implies #[trigger] line[i] == '\r' || line[i]
            == '\n' by {
            if i < line.len() - 1 {
                assert(t[i] == line[i]);
            }
        }
    } else {
        assert(line.take(line.len() as int) =~= line);
    }
}

/// A body of known length, or one to the end of the connection, is complete with
/// its text, and is that text; a chunk is added to what came before it.
pub proof fn lemma_body_is_the_text(v: ReplyView, t: Seq<char>, n: usize)
    ensures
        v.stage == Stage::Body(n) ==> after_text(v, t).stage == Stage::Done && after_text(v, t).body
            == v.body + t,
        v.stage == Stage::ToEnd ==> after_text(v, t).stage == Stage::Done && after_text(v, t).body
            == v.body + t,
        v.stage == Stage::ChunkData(n) ==> after_text(v, t).stage == Stage::ChunkEnd && after_text(
            v,
            t,
        ).body == v.body + t,
        v.stage == Stage::Done ==> after_text(v, t) == v,
        after_text(v, t).server_close == v.server_close,
{
}

/// As many bytes are asked for as the reply said.
pub proof fn lemma_wanted_is_what_was_said(n: usize)
    ensures
        wanted(Stage::Body(n)) == Want::Bytes(n),
        wanted(Stage::ChunkData(n)) == Want::Bytes(n),
        wanted(Stage::ToEnd) == Want::Rest,
        wanted(Stage::Done) == Want::Nothing,
        wanted(Stage::Status) == Want::Line,
        wanted(Stage::Headers) == Want::Line,
        wanted(Stage::ChunkSize) == Want::Line,
        wanted(Stage::ChunkEnd) == Want::Line,
        wanted(Stage::Trailer) == Want::Line,
{
}

/// Whether a connection is still good for another request.
pub open spec fn stays_open(server_close: bool, peek: Peek) -> bool {
    !server_close && (peek == Peek::Unknown || peek == Peek::Waiting || peek == Peek::Data)
}

/// A connection that the server closes, that is at its end or broken is not kept.
pub proof fn lemma_closed_connections(peek: Peek)
    ensures
        !stays_open(true, peek),
        !stays_open(false, Peek::End),
        !stays_open(false, Peek::Broken),
        stays_open(false, Peek::Waiting),
        stays_open(false, Peek::Data),
        stays_open(false, Peek::Unknown),
{
}

/// What is done about a request after it was made.
pub open spec fn attempt_after(failed: bool, repeated: bool) -> Attempt {
    match (failed, repeated) {
        (false, _) => Attempt::Accept,
        (true, false) => Attempt::Reconnect,
        (true, true) => Attempt::GiveUp,
    }
}

/// A request is repeated once at most: whatever comes of the repetition, there is
/// no other.
pub proof fn lemma_repeated_once(failed: bool)
    ensures
        attempt_after(false, false) == Attempt::Accept,
        attempt_after(false, true) == Attempt::Accept,
        attempt_after(true, false) == Attempt::Reconnect,
        attempt_after(failed, true) != Attempt::Reconnect,
        attempt_after(true, true) == Attempt::GiveUp,
{
}

} // verus!
