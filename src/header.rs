use vstd::prelude::*;
use vstd::string::StringSliceAdditionalSpecFns;

use crate::bytes::{bytes_eq, copy_range, find_byte, find_from, lemma_find_bounds};
use crate::router::{hash, host_hash};

verus! {

#[derive(Debug, PartialEq, Eq, Structural, Clone, Copy)]
pub enum Error {
    TooLargeValue,
    MisMatchedValue,
}

#[derive(Debug, PartialEq, Eq, Structural, Clone, Copy)]
pub enum ConnectionState {
    KeepAlive,
    Close,
    Upgrade,
}

/// A classified header line. Lines of any other field are kept whole as
/// `Unknown`.
#[derive(Debug, PartialEq)]
pub enum Header {
    ContentLength(usize),
    Host(u64),
    Unknown(Vec<u8>),
    TransferEncoding,
    Connection(ConnectionState),
    KeepAlive(usize),
}

/// The value of a `Connection` header, if it is one of the three known.
pub open spec fn connection_state_of(v: Seq<u8>) -> Option<ConnectionState> {
    if v == "keep-alive".spec_bytes() {
        Some(ConnectionState::KeepAlive)
    } else if v == "close".spec_bytes() {
        Some(ConnectionState::Close)
    } else if v == "upgrade".spec_bytes() {
        Some(ConnectionState::Upgrade)
    } else {
        None
    }
}

impl ConnectionState {
    /// Maps `keep-alive`, `close` and `upgrade`; any other value is refused.
    pub fn parse(input: &[u8]) -> (r: Result<ConnectionState, Error>)
        ensures
            r == match connection_state_of(input@) {
                Some(c) => Ok::<ConnectionState, Error>(c),
                None => Err(Error::MisMatchedValue),
            },
    {
        if bytes_eq(input, "keep-alive".as_bytes()) {
            Ok(ConnectionState::KeepAlive)
        } else if bytes_eq(input, "close".as_bytes()) {
            Ok(ConnectionState::Close)
        } else if bytes_eq(input, "upgrade".as_bytes()) {
            Ok(ConnectionState::Upgrade)
        } else {
            Err(Error::MisMatchedValue)
        }
    }
}

/// Whether every byte is an ASCII digit.
pub open spec fn all_digits(s: Seq<u8>) -> bool {
    forall|i: int| 0 <= i < s.len() ==> 48 <= #[trigger] s[i] <= 57
}

/// The ASCII decimal digits read as a number.
pub open spec fn decimal_value(s: Seq<u8>) -> nat
    decreases s.len(),
{
    if s.len() == 0 {
        0
    } else {
        decimal_value(s.drop_last()) * 10 + (s.last() - 48) as nat
    }
}

/// A header value read as an ASCII decimal number.
pub open spec fn decimal_result(v: Seq<u8>) -> Result<usize, Error> {
    if v.len() == 0 || !all_digits(v) {
        Err(Error::MisMatchedValue)
    } else if decimal_value(v) > usize::MAX {
        Err(Error::TooLargeValue)
    } else {
        Ok(decimal_value(v) as usize)
    }
}

proof fn lemma_decimal_grows(s: Seq<u8>, n: int)
    requires
        0 <= n <= s.len(),
        all_digits(s),
    ensures
        decimal_value(s.subrange(0, n)) <= decimal_value(s),
    decreases s.len() - n,
{
    if n < s.len() {
        lemma_decimal_grows(s, n + 1);
        assert(s.subrange(0, n + 1).drop_last() =~= s.subrange(0, n));
        assert(48 <= s[n] <= 57);
    } else {
        assert(s.subrange(0, n) =~= s);
    }
}

/// Reads a header value as an ASCII decimal number: one or more digits,
/// whose value must fit in a `usize`.
pub fn parse_numeric(input: &[u8]) -> (r: Result<usize, Error>)
    ensures
        r == decimal_result(input@),
{
    if input.len() == 0 {
        return Err(Error::MisMatchedValue);
    }
    let mut i: usize = 0;
    while i < input.len()
        invariant
            i <= input@.len(),
            forall|k: int| 0 <= k < i ==> 48 <= #[trigger] input@[k] <= 57,
        decreases input@.len() - i,
    {
        if input[i] < 48 || input[i] > 57 {
            return Err(Error::MisMatchedValue);
        }
        i = i + 1;
    }
    let mut val: usize = 0;
    let mut j: usize = 0;
    while j < input.len()
        invariant
            j <= input@.len(),
            all_digits(input@),
            val == decimal_value(input@.subrange(0, j as int)),
        decreases input@.len() - j,
    {
        assert(input@.subrange(0, j + 1).drop_last() =~= input@.subrange(0, j as int));
        let d = input[j] - 48;
        assert(48 <= input@[j as int] <= 57);
        if val > (usize::MAX - d as usize) / 10 {
            assert(decimal_value(input@.subrange(0, j + 1)) > usize::MAX) by (nonlinear_arith)
                requires
                    val > (usize::MAX - d as usize) / 10,
                    decimal_value(input@.subrange(0, j + 1)) == val * 10 + d as nat,
            ;
            proof {
                lemma_decimal_grows(input@, j + 1);
            }
            return Err(Error::TooLargeValue);
        }
        assert(val * 10 + d as nat <= usize::MAX) by (nonlinear_arith)
            requires
                val <= (usize::MAX - d as usize) / 10,
        ;
        val = val * 10 + d as usize;
        j = j + 1;
    }
    assert(input@.subrange(0, j as int) =~= input@);
    Ok(val)
}

/// The field of a header line: what stands before the first `:`.
pub open spec fn field_of(line: Seq<u8>) -> Seq<u8> {
    line.subrange(0, find_from(line, 58, 0))
}

/// The value of a header line: what follows the `:` and the one space
/// after it.
pub open spec fn value_of(line: Seq<u8>) -> Seq<u8> {
    let start = find_from(line, 58, 0) + 2;
    line.subrange(if start < line.len() { start } else { line.len() as int }, line.len() as int)
}

/// A header as the contracts see it.
pub enum HeaderView {
    ContentLength(usize),
    Host(u64),
    Unknown(Seq<u8>),
    TransferEncoding,
    Connection(ConnectionState),
    KeepAlive(usize),
}

impl View for Header {
    type V = HeaderView;

    open spec fn view(&self) -> HeaderView {
        match self {
            Header::ContentLength(n) => HeaderView::ContentLength(*n),
            Header::Host(h) => HeaderView::Host(*h),
            Header::Unknown(line) => HeaderView::Unknown(line@),
            Header::TransferEncoding => HeaderView::TransferEncoding,
            Header::Connection(c) => HeaderView::Connection(*c),
            Header::KeepAlive(n) => HeaderView::KeepAlive(*n),
        }
    }
}

/// What a header line, its line ending removed, parses to. The field is
/// matched exactly, case included; the value of a `Host` header is hashed.
pub open spec fn header_spec(line: Seq<u8>) -> Result<HeaderView, Error> {
    let f = field_of(line);
    let v = value_of(line);
    if f == "Transfer-Encoding".spec_bytes() {
        Ok(HeaderView::TransferEncoding)
    } else if f == "Content-Length".spec_bytes() {
        match decimal_result(v) {
            Ok(n) => Ok(HeaderView::ContentLength(n)),
            Err(e) => Err(e),
        }
    } else if f == "Host".spec_bytes() {
        Ok(HeaderView::Host(host_hash(v)))
    } else if f == "Connection".spec_bytes() {
        match connection_state_of(v) {
            Some(c) => Ok(HeaderView::Connection(c)),
            None => Err(Error::MisMatchedValue),
        }
    } else if f == "Keep-Alive".spec_bytes() {
        match decimal_result(v) {
            Ok(n) => Ok(HeaderView::KeepAlive(n)),
            Err(e) => Err(e),
        }
    } else {
        Ok(HeaderView::Unknown(line))
    }
}

/// A parse result as the contracts see it.
pub open spec fn header_result_view(r: Result<Header, Error>) -> Result<HeaderView, Error> {
    match r {
        Ok(h) => Ok(h@),
        Err(e) => Err(e),
    }
}

impl Header {
    /// Classifies one header line, its line ending already removed.
    pub fn parse(input: &[u8]) -> (r: Result<Header, Error>)
        ensures
            header_result_view(r) == header_spec(input@),
    {
        let colon = find_byte(input, 58, 0);
        proof {
            lemma_find_bounds(input@, 58, 0);
        }
        let value_start = if input.len() - colon > 2 {
            colon + 2
        } else {
            input.len()
        };
        let field = copy_range(input, 0, colon);
        let value = copy_range(input, value_start, input.len());
        assert(field@ == field_of(input@));
        assert(value@ == value_of(input@));
        let field = field.as_slice();
        let value = value.as_slice();
        if bytes_eq(field, "Transfer-Encoding".as_bytes()) {
            Ok(Header::TransferEncoding)
        } else if bytes_eq(field, "Content-Length".as_bytes()) {
            match parse_numeric(value) {
                Ok(n) => Ok(Header::ContentLength(n)),
                Err(e) => Err(e),
            }
        } else if bytes_eq(field, "Host".as_bytes()) {
            Ok(Header::Host(hash(value)))
        } else if bytes_eq(field, "Connection".as_bytes()) {
            match ConnectionState::parse(value) {
                Ok(c) => Ok(Header::Connection(c)),
                Err(e) => Err(e),
            }
        } else if bytes_eq(field, "Keep-Alive".as_bytes()) {
            match parse_numeric(value) {
                Ok(n) => Ok(Header::KeepAlive(n)),
                Err(e) => Err(e),
            }
        } else {
            let line = copy_range(input, 0, input.len());
            assert(line@ =~= input@);
            Ok(Header::Unknown(line))
        }
    }
}

} // verus!
