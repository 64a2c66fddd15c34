use vstd::prelude::*;
use vstd::string::StringSliceAdditionalSpecFns;

use crate::bytes::{bytes_eq, copy_range, find_byte, find_from, lemma_find_bounds};

verus! {

#[derive(Debug, PartialEq, Eq, Structural, Clone, Copy)]
pub enum HttpVersion {
    HTTP09,
    HTTP10,
    HTTP11,
    HTTP2,
    HTTP3,
}

#[derive(Debug, PartialEq, Eq, Structural, Clone, Copy)]
pub enum Method {
    GET,
    CONNECT,
    POST,
    HEAD,
    PUT,
    DELETE,
    OPTIONS,
    TRACE,
    PATCH,
}

/// The first line of a request: `METHOD PATH VERSION`.
#[derive(Debug, PartialEq)]
pub struct StartLine {
    pub method: Method,
    pub version: HttpVersion,
    pub path: Vec<u8>,
}

#[derive(Debug, PartialEq, Eq, Structural, Clone, Copy)]
pub enum Error {
    BadFormat,
    MisMatchedValue,
}

/// A start line as the contracts see it.
pub struct StartLineView {
    pub method: Method,
    pub version: HttpVersion,
    pub path: Seq<u8>,
}

impl View for StartLine {
    type V = StartLineView;

    open spec fn view(&self) -> StartLineView {
        StartLineView { method: self.method, version: self.version, path: self.path@ }
    }
}

/// The version a token names, by exact match.
pub open spec fn version_of(t: Seq<u8>) -> Option<HttpVersion> {
    if t == "HTTP/0.9".spec_bytes() {
        Some(HttpVersion::HTTP09)
    } else if t == "HTTP/1.0".spec_bytes() {
        Some(HttpVersion::HTTP10)
    } else if t == "HTTP/1.1".spec_bytes() {
        Some(HttpVersion::HTTP11)
    } else if t == "HTTP/2".spec_bytes() {
        Some(HttpVersion::HTTP2)
    } else if t == "HTTP/3".spec_bytes() {
        Some(HttpVersion::HTTP3)
    } else {
        None
    }
}

/// The method a token names.
pub open spec fn method_of(t: Seq<u8>) -> Option<Method> {
    if t == "GET".spec_bytes() {
        Some(Method::GET)
    } else if t == "POST".spec_bytes() {
        Some(Method::POST)
    } else if t == "HEAD".spec_bytes() {
        Some(Method::HEAD)
    } else if t == "PUT".spec_bytes() {
        Some(Method::PUT)
    } else if t == "DELETE".spec_bytes() {
        Some(Method::DELETE)
    } else if t == "CONNECT".spec_bytes() {
        Some(Method::CONNECT)
    } else if t == "OPTIONS".spec_bytes() {
        Some(Method::OPTIONS)
    } else if t == "TRACE".spec_bytes() {
        Some(Method::TRACE)
    } else if t == "PATCH".spec_bytes() {
        Some(Method::PATCH)
    } else {
        None
    }
}

impl HttpVersion {
    /// Maps a version token by exact match.
    pub fn parse(input: &[u8]) -> (r: Result<HttpVersion, Error>)
        ensures
            r == match version_of(input@) {
                Some(v) => Ok::<HttpVersion, Error>(v),
                None => Err(Error::MisMatchedValue),
            },
    {
        if bytes_eq(input, "HTTP/0.9".as_bytes()) {
            Ok(HttpVersion::HTTP09)
        } else if bytes_eq(input, "HTTP/1.0".as_bytes()) {
            Ok(HttpVersion::HTTP10)
        } else if bytes_eq(input, "HTTP/1.1".as_bytes()) {
            Ok(HttpVersion::HTTP11)
        } else if bytes_eq(input, "HTTP/2".as_bytes()) {
            Ok(HttpVersion::HTTP2)
        } else if bytes_eq(input, "HTTP/3".as_bytes()) {
            Ok(HttpVersion::HTTP3)
        } else {
            Err(Error::MisMatchedValue)
        }
    }
}

impl Method {
    /// Maps a method token by exact match.
    pub fn parse(input: &[u8]) -> (r: Result<Method, Error>)
        ensures
            r == match method_of(input@) {
                Some(m) => Ok::<Method, Error>(m),
                None => Err(Error::MisMatchedValue),
            },
    {
        if bytes_eq(input, "GET".as_bytes()) {
            Ok(Method::GET)
        } else if bytes_eq(input, "POST".as_bytes()) {
            Ok(Method::POST)
        } else if bytes_eq(input, "HEAD".as_bytes()) {
            Ok(Method::HEAD)
        } else if bytes_eq(input, "PUT".as_bytes()) {
            Ok(Method::PUT)
        } else if bytes_eq(input, "DELETE".as_bytes()) {
            Ok(Method::DELETE)
        } else if bytes_eq(input, "CONNECT".as_bytes()) {
            Ok(Method::CONNECT)
        } else if bytes_eq(input, "OPTIONS".as_bytes()) {
            Ok(Method::OPTIONS)
        } else if bytes_eq(input, "TRACE".as_bytes()) {
            Ok(Method::TRACE)
        } else if bytes_eq(input, "PATCH".as_bytes()) {
            Ok(Method::PATCH)
        } else {
            Err(Error::MisMatchedValue)
        }
    }
}

/// The end of the first token of a start line.
pub open spec fn first_space(line: Seq<u8>) -> int {
    find_from(line, 32, 0)
}

/// The end of the second token of a start line.
pub open spec fn second_space(line: Seq<u8>) -> int {
    find_from(line, 32, first_space(line) + 1)
}

/// Whether the line splits on spaces into exactly three tokens.
pub open spec fn three_tokens(line: Seq<u8>) -> bool {
    &&& first_space(line) < line.len()
    &&& second_space(line) < line.len()
    &&& find_from(line, 32, second_space(line) + 1) == line.len()
}

pub open spec fn method_token(line: Seq<u8>) -> Seq<u8> {
    line.subrange(0, first_space(line))
}

pub open spec fn path_token(line: Seq<u8>) -> Seq<u8> {
    line.subrange(first_space(line) + 1, second_space(line))
}

pub open spec fn version_token(line: Seq<u8>) -> Seq<u8> {
    line.subrange(second_space(line) + 1, line.len() as int)
}

/// What a start line, its line ending removed, parses to.
pub open spec fn start_line_spec(line: Seq<u8>) -> Result<StartLineView, Error> {
    if !three_tokens(line) {
        Err(Error::BadFormat)
    } else {
        match (method_of(method_token(line)), version_of(version_token(line))) {
            (Some(m), Some(v)) => Ok(StartLineView { method: m, version: v, path: path_token(line) }),
            _ => Err(Error::MisMatchedValue),
        }
    }
}

/// A parse result as the contracts see it.
pub open spec fn start_line_result_view(r: Result<StartLine, Error>) -> Result<StartLineView, Error> {
    match r {
        Ok(s) => Ok(s@),
        Err(e) => Err(e),
    }
}

impl StartLine {
    /// Parses a start line, its line ending already removed: three tokens
    /// separated by single spaces, the method and the version each one of
    /// the known values.
    pub fn parse(input: &[u8]) -> (r: Result<StartLine, Error>)
        ensures
            start_line_result_view(r) == start_line_spec(input@),
    {
        proof {
            lemma_find_bounds(input@, 32, 0);
        }
        let first = find_byte(input, 32, 0);
        if first == input.len() {
            return Err(Error::BadFormat);
        }
        proof {
            lemma_find_bounds(input@, 32, first + 1);
        }
        let second = find_byte(input, 32, first + 1);
        if second == input.len() {
            return Err(Error::BadFormat);
        }
        proof {
            lemma_find_bounds(input@, 32, second + 1);
        }
        if find_byte(input, 32, second + 1) != input.len() {
            return Err(Error::BadFormat);
        }
        let method_bytes = copy_range(input, 0, first);
        let path = copy_range(input, first + 1, second);
        let version_bytes = copy_range(input, second + 1, input.len());
        let method = match Method::parse(method_bytes.as_slice()) {
            Ok(m) => m,
            Err(e) => {
                return Err(e);
            },
        };
        let version = match HttpVersion::parse(version_bytes.as_slice()) {
            Ok(v) => v,
            Err(e) => {
                return Err(e);
            },
        };
        Ok(StartLine { method, version, path })
    }
}

} // verus!
