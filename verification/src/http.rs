//! Requests and responses, and the decoder that reads a request off the wire.
//!
//! The decoder works on the bytes that came from the client. It takes the
//! request target from the first line and a header field from every later line
//! that holds `": "`. Method and protocol are not read from the wire: every
//! request is taken as a `GET` under `HTTP/1.1`, and its body is left empty.

use crate::buffer::{buffer_bytes, buffer_content, bytes_content, text_of};
use crate::decimal::{decimal_string, decimal_text};
use crate::headers::{put, Headers};
use crate::scan::{
    cut, cut_text, lemma_first_occurrence_bounds, lemma_split_step, split,
};
use bytes::Bytes;
use bytes::BytesMut;
use vstd::hash_map::StringHashMap;
use vstd::prelude::*;
use vstd::string::*;
use vstd::utf8::*;

verus! {

/// The end of a line on the wire: carriage return, line feed.
pub open spec fn line_end() -> Seq<u8> {
    seq![13u8, 10u8]
}

/// What parts the request line: one space.
pub open spec fn blank() -> Seq<u8> {
    seq![32u8]
}

/// What parts a header's name from its value: a colon and a space.
pub open spec fn field_mark() -> Seq<u8> {
    seq![58u8, 32u8]
}

/// The lines of a message: its bytes split at every line end.
pub open spec fn lines(message: Seq<u8>) -> Seq<Seq<u8>> {
    split(message, line_end())
}

/// The request target: the second of the tokens that single spaces part in the
/// first line. There is none where the first line holds no space.
pub open spec fn request_target(message: Seq<u8>) -> Option<Seq<u8>> {
    match cut(lines(message)[0], blank()) {
        Some((_, rest)) => Some(split(rest, blank())[0]),
        None => None,
    }
}

/// The header field that a line holds: what stands before the first `": "` is
/// the name, what stands behind it the value. A line without `": "` holds none.
pub open spec fn field_of_line(line: Seq<u8>) -> Option<(Seq<char>, Seq<char>)> {
    match cut(line, field_mark()) {
        Some((name, value)) => Some((decode_utf8(name), decode_utf8(value))),
        None => None,
    }
}

/// The header fields that `lines` hold, written one after the other, so that a
/// later field of the same name stands in place of the earlier one.
pub open spec fn fields_of_lines(lines: Seq<Seq<u8>>) -> Seq<(Seq<char>, Seq<char>)>
    decreases lines.len(),
{
    if lines.len() == 0 {
        Seq::empty()
    } else {
        let before = fields_of_lines(lines.drop_last());
        match field_of_line(lines.last()) {
            Some((name, value)) => put(before, name, value),
            None => before,
        }
    }
}

/// The header fields of a message: those of every line but the first.
pub open spec fn message_fields(message: Seq<u8>) -> Seq<(Seq<char>, Seq<char>)> {
    fields_of_lines(lines(message).drop_first())
}

/// Whether a request can be decoded from `message`.
pub open spec fn decodable(message: Seq<u8>) -> bool {
    valid_utf8(message) && request_target(message) is Some
}

/// A request method.
#[derive(Debug, Clone, Copy, PartialEq, Eq)]
pub enum HTTPMethod {
    Get,
    Post,
    Put,
    Delete,
}

/// Why no request could be decoded.
#[derive(Debug, Clone, Copy, PartialEq, Eq)]
pub enum DecodeError {
    /// The bytes are not UTF-8 text.
    InvalidUtf8,
    /// The first line holds no second token to take the path from.
    MissingPath,
}

/// A request as the proxy sees it.
#[derive(Debug)]
pub struct HTTPRequest {
    pub method: HTTPMethod,
    pub path: String,
    pub protocol: String,
    pub headers: Headers,
    pub body: Bytes,
}

/// A response as it goes back to the client.
pub struct HTTPResponse {
    pub status_code: u32,
    pub headers: StringHashMap<String>,
    pub body: Bytes,
}

impl HTTPResponse {
    /// Whether the response is consistent: a `Content-Length` header, where
    /// there is one, counts the bytes of the body.
    pub open spec fn well_formed(&self) -> bool {
        self.headers@.contains_key("Content-Length"@) ==> self.headers@["Content-Length"@]@
            == decimal_text(bytes_content(self.body).len())
    }

    /// A response with the given status and body, and the `Content-Length`
    /// header that goes with the body as its only header.
    pub fn new(status_code: u32, body: Bytes) -> (response: Self)
        ensures
            response.status_code == status_code,
            response.body == body,
            response.headers@.dom() == set!["Content-Length"@],
            response.well_formed(),
    {
        let mut headers: StringHashMap<String> = StringHashMap::new();
        headers.insert("Content-Length".to_owned(), decimal_string(body.len()));
        assert(headers@.dom() =~= set!["Content-Length"@]);
        HTTPResponse { status_code, headers, body }
    }
}

impl HTTPRequest {
    /// A `GET` for `/` under `HTTP/1.1`, without headers or body.
    pub fn new() -> (request: Self)
        ensures
            request.method == HTTPMethod::Get,
            request.path@ == "/"@,
            request.protocol@ == "HTTP/1.1"@,
            request.headers@ == Seq::<(Seq<char>, Seq<char>)>::empty(),
            bytes_content(request.body) == Seq::<u8>::empty(),
    {
        HTTPRequest {
            method: HTTPMethod::Get,
            path: "/".to_owned(),
            protocol: "HTTP/1.1".to_owned(),
            headers: Headers::new(),
            body: Bytes::new(),
        }
    }

    /// Decodes the request that `buffer` holds into `self`.
    ///
    /// Decoding fails where the bytes are not UTF-8 text, and where the first
    /// line has no second token; the request is then left as it was.
    pub fn parse(&mut self, buffer: &BytesMut) -> (outcome: Result<(), DecodeError>)
        ensures
            outcome is Ok <==> decodable(buffer_content(*buffer)),
            outcome == Err::<(), DecodeError>(DecodeError::InvalidUtf8) <==> !valid_utf8(
                buffer_content(*buffer),
            ),
            outcome is Err ==> *final(self) == *old(self),
            outcome is Ok ==> {
                &&& final(self).method == HTTPMethod::Get
                &&& final(self).protocol@ == "HTTP/1.1"@
                &&& Some(final(self).path@) == match request_target(buffer_content(*buffer)) {
                    Some(target) => Some(decode_utf8(target)),
                    None => None,
                }
                &&& final(self).headers@ == message_fields(buffer_content(*buffer))
                &&& bytes_content(final(self).body) == Seq::<u8>::empty()
            },
    {
        broadcast use {encode_utf8_decode_utf8, encode_utf8_valid_utf8};

        let bytes = buffer_bytes(buffer);
        let ghost message = bytes@;
        let text = match text_of(bytes) {
            Some(text) => text,
            None => {
                return Err(DecodeError::InvalidUtf8);
            },
        };
        let line_end_bytes: [u8; 2] = [13u8, 10u8];
        let blank_bytes: [u8; 1] = [32u8];
        let field_mark_bytes: [u8; 2] = [58u8, 32u8];
        let line_end = line_end_bytes.as_slice();
        let blank = blank_bytes.as_slice();
        let field_mark = field_mark_bytes.as_slice();
        assert(line_end@ =~= self::line_end());
        assert(blank@ =~= self::blank());
        assert(field_mark@ =~= self::field_mark());

        proof {
            lemma_split_step(message, self::line_end());
        }
        let (first, mut rest): (&str, Option<&str>) = match cut_text(text, line_end) {
            Some((head, tail)) => (head, Some(tail)),
            None => (text, None),
        };
        assert(first.spec_bytes() == lines(message)[0]);

        let after_method = match cut_text(first, blank) {
            Some((_, tail)) => tail,
            None => {
                return Err(DecodeError::MissingPath);
            },
        };
        proof {
            lemma_split_step(after_method.spec_bytes(), self::blank());
        }
        let target = match cut_text(after_method, blank) {
            Some((head, _)) => head,
            None => after_method,
        };
        assert(Some(target.spec_bytes()) == request_target(message));

        let mut headers = Headers::new();
        let ghost mut done: Seq<Seq<u8>> = Seq::empty();
        assert(lines(message).drop_first() =~= done + match rest {
            Some(r) => lines(r.spec_bytes()),
            None => Seq::empty(),
        });
        loop
            invariant
                line_end@ == self::line_end(),
                field_mark@ == self::field_mark(),
                lines(message).drop_first() == done + match rest {
                    Some(r) => lines(r.spec_bytes()),
                    None => Seq::empty(),
                },
                headers@ == fields_of_lines(done),
            ensures
                rest is None,
                headers@ == message_fields(message),
            decreases
                match rest {
                    Some(r) => r.spec_bytes().len() + 1,
                    None => 0,
                },
        {
            let remaining = match rest {
                Some(r) => r,
                None => {
                    assert(lines(message).drop_first() =~= done);
                    break ;
                },
            };
            proof {
                lemma_split_step(remaining.spec_bytes(), self::line_end());
                lemma_first_occurrence_bounds(remaining.spec_bytes(), self::line_end());
            }
            let (line, next): (&str, Option<&str>) = match cut_text(remaining, line_end) {
                Some((head, tail)) => (head, Some(tail)),
                None => (remaining, None),
            };
            let ghost before = done;
            proof {
                done = done.push(line.spec_bytes());
                assert(done.drop_last() =~= before);
                assert(lines(message).drop_first() =~= done + match next {
                    Some(r) => lines(r.spec_bytes()),
                    None => Seq::empty(),
                });
            }
            assert(done.last() == line.spec_bytes());
            match cut_text(line, field_mark) {
                Some((name, value)) => {
                    proof {
                        encode_utf8_decode_utf8(name@);
                        encode_utf8_decode_utf8(value@);
                    }
                    assert(field_of_line(line.spec_bytes()) == Some((name@, value@)));
                    headers.insert(name.to_owned(), value.to_owned());
                },
                None => {
                    assert(field_of_line(line.spec_bytes()) is None);
                },
            }
            rest = next;
        }

        self.method = HTTPMethod::Get;
        self.path = target.to_owned();
        self.protocol = "HTTP/1.1".to_owned();
        self.headers = headers;
        self.body = Bytes::new();
        Ok(())
    }
}

} // verus!
