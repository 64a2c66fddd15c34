use proxy::block::{Block, Step, READ_UNTIL_LIMIT};
use proxy::header::{parse_numeric, ConnectionState, Error, Header};
use proxy::http::Model;
use proxy::request::{next_chunk, Error as RequestError, Request, CHUNK_SIZE, UPGRADE_KEEP_ALIVE};
use proxy::router::{hash, AppState, Host, SocketAddress};
use proxy::stage;
use proxy::startline::{Error as StartLineError, HttpVersion, Method, StartLine};

#[test]
fn header() {
    let source = b"Host: www.example.com".to_vec();
    let result = Header::parse(&source).unwrap();
    let binary_host = b"www.example.com";
    assert_eq!(Header::Host(hash(binary_host)), result);
}

#[test]
fn numeric_parsing() {
    let source: &[u8] = b"30672967";
    let result = parse_numeric(source);
    assert_eq!(30672967, result.unwrap());

    let source: &[u8] = b"84121284121284121284121271";
    let result = parse_numeric(source);
    assert_eq!(Error::TooLargeValue, result.unwrap_err());
}

#[test]
fn start_line() {
    let source = b"GET http://a.example.com/index.html HTTP/1.1";
    let result = StartLine::parse(source.as_ref()).unwrap();
    let expect_result = StartLine {
        method: Method::GET,
        version: HttpVersion::HTTP11,
        path: b"http://a.example.com/index.html".to_vec(),
    };
    assert_eq!(expect_result, result);
}

#[test]
fn start_line_needs_three_tokens() {
    assert_eq!(StartLine::parse(b"GET /index.html"), Err(StartLineError::BadFormat));
    assert_eq!(StartLine::parse(b"GET / HTTP/1.1 extra"), Err(StartLineError::BadFormat));
    assert_eq!(StartLine::parse(b"FETCH / HTTP/1.1"), Err(StartLineError::MisMatchedValue));
    assert_eq!(StartLine::parse(b"GET / HTTP/9"), Err(StartLineError::MisMatchedValue));
    assert_eq!(StartLine::parse(b"HEAD /x HTTP"), Err(StartLineError::MisMatchedValue));
    assert_eq!(StartLine::parse(b"PATCH /x HTTP/2").unwrap().method, Method::PATCH);
    assert_eq!(StartLine::parse(b"PUT /x HTTP/1.0").unwrap().version, HttpVersion::HTTP10);
    assert_eq!(StartLine::parse(b"PUT /x HTTP/1.1").unwrap().version, HttpVersion::HTTP11);
    assert_eq!(StartLine::parse(b"PUT /x HTTP/0.9").unwrap().version, HttpVersion::HTTP09);
    assert_eq!(StartLine::parse(b"PUT /x HTTP/3").unwrap().version, HttpVersion::HTTP3);
}

#[test]
fn header_fields() {
    assert_eq!(Header::parse(b"Content-Length: 42"), Ok(Header::ContentLength(42)));
    assert_eq!(Header::parse(b"Keep-Alive: 300"), Ok(Header::KeepAlive(300)));
    assert_eq!(Header::parse(b"Transfer-Encoding: chunked"), Ok(Header::TransferEncoding));
    assert_eq!(
        Header::parse(b"Connection: upgrade"),
        Ok(Header::Connection(ConnectionState::Upgrade))
    );
    assert_eq!(
        Header::parse(b"Connection: keep-alive"),
        Ok(Header::Connection(ConnectionState::KeepAlive))
    );
    assert_eq!(Header::parse(b"Connection: sometimes"), Err(Error::MisMatchedValue));
    assert_eq!(Header::parse(b"Content-Length: 4x"), Err(Error::MisMatchedValue));
    assert_eq!(
        Header::parse(b"Content-Length: 99999999999999999999999"),
        Err(Error::TooLargeValue)
    );
    assert_eq!(
        Header::parse(b"Accept: */*"),
        Ok(Header::Unknown(b"Accept: */*".to_vec()))
    );
    // Fields are matched with their case.
    assert_eq!(Header::parse(b"host: a"), Ok(Header::Unknown(b"host: a".to_vec())));
}

#[test]
fn decimal_values() {
    assert_eq!(parse_numeric(b"0"), Ok(0));
    assert_eq!(parse_numeric(b"16384"), Ok(16384));
    assert_eq!(parse_numeric(b""), Err(Error::MisMatchedValue));
    assert_eq!(parse_numeric(b"18446744073709551615"), Ok(usize::MAX));
    assert_eq!(parse_numeric(b"18446744073709551616"), Err(Error::TooLargeValue));
}

#[test]
fn hash_depends_on_the_bytes() {
    assert_eq!(hash(b"a.example.com"), hash(b"a.example.com"));
    assert_ne!(hash(b"a.example.com"), hash(b"b.example.com"));
    let state = AppState::new(String::new(), 1, Vec::new());
    assert_eq!(state.hash("a.example.com"), hash(b"a.example.com"));
}

#[test]
fn read_until() {
    let mut block = Block::new();
    block.feed(b"HTTP/1.1 400 Bad Request\r\nServer: nginx\r\nContent-Length: 0\r\n");
    let line1 = block.read_until(b"\r\n");
    let line2 = block.read_until(b"\r\n");
    assert_eq!(line1, Step::Ready(b"HTTP/1.1 400 Bad Request\r\n".to_vec()));
    assert_eq!(line2, Step::Ready(b"Server: nginx\r\n".to_vec()));
}

#[test]
fn read_until_waits_for_the_delimiter() {
    let mut block = Block::new();
    block.feed(b"GET / HT");
    assert_eq!(block.next_line(), Step::Pending);
    assert_eq!(block.buffer_size(), 0);
    block.feed(b"TP/1.1\r\nrest");
    assert_eq!(block.next_line(), Step::Ready(b"GET / HTTP/1.1\r\n".to_vec()));
    assert_eq!(block.next_line(), Step::Pending);
    block.feed(b"");
    assert_eq!(block.next_line(), Step::Ready(b"rest".to_vec()));
    assert_eq!(block.next_line(), Step::Ready(Vec::new()));
}

#[test]
fn read_until_resets_on_mismatch() {
    let mut block = Block::new();
    block.feed(b"a\r\r\nb\r\n");
    assert_eq!(block.next_line(), Step::Ready(b"a\r\r\nb\r\n".to_vec()));
}

#[test]
fn read_until_caps_a_line() {
    let mut block = Block::new();
    let long = vec![b'x'; 2000];
    block.feed(&long);
    match block.next_line() {
        Step::Ready(line) => assert_eq!(line.len(), READ_UNTIL_LIMIT),
        Step::Pending => panic!("a full line was at hand"),
    }
    assert_eq!(block.buffer_size(), 512);
}

#[test]
fn read_and_unread_make_up_the_input() {
    let mut block = Block::new();
    let input = b"GET / HTTP/1.1\r\nHost: a\r\n\r\nBODY".to_vec();
    block.feed(&input[..10]);
    block.feed(&input[10..]);
    block.next_line();
    block.next_line();
    let (read, unread) = block.into_parts();
    assert_eq!(read, b"GET / HTTP/1.1\r\nHost: a\r\n".to_vec());
    let mut all = read.clone();
    all.extend(unread);
    assert_eq!(all, input);
}

#[test]
fn startline_parsing() {
    let mut model = Model::<stage::StartLine>::new();
    model.feed(b"GET http://a.example.com/index.html HTTP/1.1\r\n");
    let result1 = model.next();
    assert_eq!(
        result1,
        Step::Ready(Ok(Some(StartLine {
            method: Method::GET,
            version: HttpVersion::HTTP11,
            path: b"http://a.example.com/index.html".to_vec()
        })))
    );
    let result2 = model.next();
    assert_eq!(result2, Step::Ready(Ok(None)));
}

#[test]
fn headerfield_parsing() {
    let mut model = Model::<stage::HeaderField>::new();
    model.feed(b"Host: a.example.com\r\n\r\n");
    let result1 = model.next();
    assert_eq!(result1, Step::Ready(Ok(Some(Header::Host(hash(b"a.example.com"))))));
    let result2 = model.next();
    assert_eq!(result2, Step::Ready(Ok(None)));
}

fn state_for(host: &[u8], port: u16) -> AppState {
    AppState::new(
        String::from("127.0.0.1:8080"),
        4,
        vec![Host { name: host.to_vec(), addrs: vec![SocketAddress::V4([127, 0, 0, 1], port)] }],
    )
}

fn parse_preamble(input: &[u8]) -> Result<Request<stage::MessageBody>, RequestError> {
    let mut req = Request::new();
    req.feed(input);
    req.close();
    match req.read_start_line() {
        Step::Ready(Ok(())) => {}
        Step::Ready(Err(e)) => return Err(e),
        Step::Pending => panic!("the stream has ended"),
    }
    let mut req = req.skip();
    loop {
        match req.read_header() {
            Step::Ready(Ok(true)) => {}
            Step::Ready(Ok(false)) => break,
            Step::Ready(Err(e)) => return Err(e),
            Step::Pending => panic!("the stream has ended"),
        }
    }
    Ok(req.skip())
}

#[test]
fn request_is_forwarded_byte_for_byte() {
    let input = b"GET / HTTP/1.1\r\nHost: a.example.com\r\n\r\n";
    let req = parse_preamble(input).unwrap();
    assert_eq!(req.host(), hash(b"a.example.com"));
    assert_eq!(req.content_length(), 0);
    let mut state = state_for(b"a.example.com", 9001);
    let forward = req.send(&mut state).unwrap();
    assert_eq!(forward.upstream, SocketAddress::V4([127, 0, 0, 1], 9001));
    assert_eq!(forward.head, input.to_vec());
    assert_eq!(forward.remaining, 0);
}

#[test]
fn body_beyond_the_buffer_is_left_to_copy() {
    let input = b"POST /up HTTP/1.1\r\nHost: a.example.com\r\nContent-Length: 20000\r\n\r\nhello";
    let req = parse_preamble(input).unwrap();
    assert_eq!(req.content_length(), 20000);
    let mut state = state_for(b"a.example.com", 9001);
    let forward = req.send(&mut state).unwrap();
    assert_eq!(forward.head, input.to_vec());
    assert_eq!(forward.remaining, 20000 - 5);
    assert_eq!(next_chunk(forward.remaining), CHUNK_SIZE);
    assert_eq!(next_chunk(3), 3);
}

#[test]
fn bytes_past_the_body_are_not_forwarded() {
    let input = b"POST / HTTP/1.1\r\nHost: a.example.com\r\nContent-Length: 2\r\n\r\nhiEXTRA";
    let req = parse_preamble(input).unwrap();
    let mut state = state_for(b"a.example.com", 9001);
    let forward = req.send(&mut state).unwrap();
    assert_eq!(forward.head, input[..input.len() - 5].to_vec());
    assert_eq!(forward.remaining, 0);
}

#[test]
fn unknown_host_is_refused() {
    let req = parse_preamble(b"GET / HTTP/1.1\r\nHost: unknown.example.com\r\n\r\n").unwrap();
    let mut state = state_for(b"a.example.com", 9001);
    assert!(matches!(req.send(&mut state), Err(RequestError::ClientIncompatible)));
}

#[test]
fn transfer_encoding_is_refused() {
    let result = parse_preamble(
        b"POST / HTTP/1.1\r\nHost: a.example.com\r\nTransfer-Encoding: chunked\r\n\r\n",
    );
    assert!(matches!(result, Err(RequestError::BadProtocol)));
}

#[test]
fn bad_lines_are_refused() {
    assert!(matches!(
        parse_preamble(b"BREW / HTTP/1.1\r\n\r\n"),
        Err(RequestError::ClientIncompatible)
    ));
    assert!(matches!(
        parse_preamble(b"GET / HTTP/1.1\r\nContent-Length: ten\r\n\r\n"),
        Err(RequestError::ClientIncompatible)
    ));
}

#[test]
fn upgrade_and_keep_alive_are_taken_in() {
    let req = parse_preamble(b"GET / HTTP/1.1\r\nConnection: upgrade\r\n\r\n").unwrap();
    assert_eq!(req.keep_alive(), UPGRADE_KEEP_ALIVE);
    let req = parse_preamble(b"GET / HTTP/1.1\r\nKeep-Alive: 5\r\nX-Other: y\r\n\r\n").unwrap();
    assert_eq!(req.keep_alive(), 5);
    let req = parse_preamble(b"GET / HTTP/1.1\r\n\r\n").unwrap();
    assert_eq!(req.keep_alive(), 2);
}
