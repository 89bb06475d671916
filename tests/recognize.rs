use elaine::error::HeadError;
use elaine::head::RequestMethod;
use elaine::scan::{recognize_bytes, recognize_fragmented, Recognizer, Status};

fn complex_request(tail: &[u8]) -> Vec<u8> {
    let mut input = b"GET /first HTTP/1.1\r\nComplex: ".to_vec();
    input.extend_from_slice(tail);
    input
}

fn first_header_line(tail: &[u8]) -> Vec<u8> {
    let mut input = b"GET /first HTTP/1.1\r\n".to_vec();
    input.extend_from_slice(tail);
    input
}

#[test]
fn test_invalid_header_line() {
    let result = recognize_bytes(b"FOOBAR\r\nHost: 0.0.0.0:8080\r\n\r\n");
    assert!(result.is_err());
}

#[test]
fn test_invalid_method() {
    let result = recognize_bytes(b"FOOBAR /hello HTTP/1.1\r\nHost: 0.0.0.0:8080\r\n\r\n");
    assert!(result.is_err());
}

#[test]
fn test_invalid_version() {
    let result = recognize_bytes(b"FOOBAR /hello GARBAGE\r\nHost: 0.0.0.0:8080\r\n\r\n");
    assert!(result.is_err());
}

#[test]
fn test_with_auth() {
    let result = recognize_bytes(b"POST / HTTP/1.1\r\nHost: 0.0.0.0:8080\r\n\r\n");
    assert!(result.is_ok());
}

#[test]
fn test_recognize_two() {
    let tail: &[u8] = &[0x61, 0x61, 0x61, 0xC9, 0x92, 0x0d, 0x0a, 0x0d, 0x0a];
    let result = recognize_bytes(&first_header_line(tail));
    assert!(result.is_ok())
}

#[test]
fn test_recognize_three() {
    let tail: &[u8] = &[0x61, 0x61, 0xE0, 0xA1, 0x98, 0x0d, 0x0a, 0x0d, 0x0a];
    let result = recognize_bytes(&first_header_line(tail));
    assert!(result.is_ok())
}

#[test]
fn test_recognize_full() {
    let tail: &[u8] = &[0xF0, 0x90, 0x86, 0x92, 0x0d, 0x0a, 0x0d, 0x0a];
    let result = recognize_bytes(&first_header_line(tail));
    assert!(result.is_ok())
}

#[test]
fn test_recognize_four() {
    let tail: &[u8] = &[0x61, 0xF0, 0x90, 0x86, 0x92, 0x0d, 0x0a, 0x0d, 0x0a];
    let result = recognize_bytes(&first_header_line(tail));
    assert!(result.is_ok())
}

#[test]
fn test_recognize_after() {
    let input = b"GET /foo HTTP/1.1\r\nHost: 8080\r\nContent-Length: 3\r\n\r\nhey";
    let result = recognize_bytes(input);
    assert!(result.is_ok());
    let (_, used) = result.unwrap();
    assert_eq!(&input[used..], b"hey");
}

#[test]
fn test_recognize_utf8_boundary_dangle_two() {
    let buf: &[u8] = &[0x61, 0x61, 0x61, 0xE0, 0xA1, 0x98, 0x0d, 0x0a, 0x0d, 0x0a];
    let (head, _) = recognize_bytes(&complex_request(buf)).unwrap();
    assert_eq!(head.find_header("Complex"), Some("aaa\u{858}".to_string()));
}

#[test]
fn test_recognize_utf8_boundary_dangle_three() {
    let buf: &[u8] = &[0x61, 0x61, 0x61, 0xF0, 0x90, 0x86, 0x92, 0x0d, 0x0a, 0x0d, 0x0a];
    let (head, _) = recognize_bytes(&complex_request(buf)).unwrap();
    assert_eq!(head.find_header("Complex"), Some("aaa\u{10192}".to_string()));
}

#[test]
fn test_recognize_utf8_boundary_half_debt_one() {
    let buf: &[u8] = &[0x61, 0x61, 0xC9, 0x92, 0x0d, 0x0a, 0x0d, 0x0a];
    let (head, _) = recognize_bytes(&complex_request(buf)).unwrap();
    assert_eq!(head.find_header("Complex"), Some("aa\u{252}".to_string()));
}

#[test]
fn test_recognize_utf8_boundary_half_debt_two() {
    let buf: &[u8] = &[0x61, 0xC9, 0x92, 0x61, 0x0d, 0x0a, 0x0d, 0x0a];
    let (head, _) = recognize_bytes(&complex_request(buf)).unwrap();
    assert_eq!(head.find_header("Complex"), Some("a\u{252}a".to_string()));
}

#[test]
fn test_recognize_utf8_boundary_half_dangle_one() {
    let buf: &[u8] = &[0x61, 0x61, 0xE0, 0xA1, 0x98, 0x0d, 0x0a, 0x0d, 0x0a];
    let (head, _) = recognize_bytes(&complex_request(buf)).unwrap();
    assert_eq!(head.find_header("Complex"), Some("aa\u{858}".to_string()));
}

#[test]
fn test_recognize_utf8_boundary_half_dangle_three() {
    let buf: &[u8] = &[0x61, 0x61, 0xF0, 0x90, 0x86, 0x92, 0x0d, 0x0a, 0x0d, 0x0a];
    let (head, _) = recognize_bytes(&complex_request(buf)).unwrap();
    assert_eq!(head.find_header("Complex"), Some("aa\u{10192}".to_string()));
}

#[test]
fn test_recognize_utf8_boundary_half_debt_one_four() {
    let buf: &[u8] = &[0x61, 0xF0, 0x90, 0x86, 0x92, 0x0d, 0x0a, 0x0d, 0x0a];
    let (head, _) = recognize_bytes(&complex_request(buf)).unwrap();
    assert_eq!(head.find_header("Complex"), Some("a\u{10192}".to_string()));
}

#[test]
fn test_single_char_utf8() {
    let buf: &[u8] = &[0xF0, 0x90, 0x86, 0x92, 0x0d, 0x0a, 0x0d, 0x0a];
    let (head, _) = recognize_bytes(&complex_request(buf)).unwrap();
    assert_eq!(head.find_header("Complex"), Some("\u{10192}".to_string()));
}

#[test]
fn test_recognize_http_example() {
    let input = format!(
        "{}{}{}{}{}{}{}{}{}{}{}{}",
        "GET ", "/hel", "lo-w", "orld", " HTT", "P/1.", "1\r\nC", "onte", "nt-L", "engt", "h: 3", "\r\n\r\n"
    );
    let (head, _) = recognize_bytes(input.as_bytes()).unwrap();
    assert_eq!(head.method(), Some(RequestMethod::GET));
}

#[test]
fn recognize_valid_without_body() {
    let result = recognize_bytes(b"GET /foobar HTTP/1.0\r\n\r\n");
    assert!(result.is_ok());
    let (head, _) = result.unwrap();
    assert_eq!(head.method(), Some(RequestMethod::GET));
    assert_eq!(head.len(), None);
}

#[test]
fn recognize_valid_with_len() {
    let result = recognize_bytes(b"GET /foobar HTTP/1.0\r\nContent-Length: 10\r\n\r\n");
    assert!(result.is_ok());
    let (head, _) = result.unwrap();
    assert_eq!(head.method(), Some(RequestMethod::GET));
    assert_eq!(head.len(), Some(10));
}

#[test]
fn recognize_bad_content_length() {
    let result = recognize_bytes(b"GET /foobar HTTP/1.0\r\nContent-Length: bad\r\n\r\n");
    assert!(result.is_err());
}

#[test]
fn recognize_fail_bad_start() {
    let result = recognize_bytes(b"\r\n");
    assert!(result.is_err());
}

#[test]
fn recognize_and_read_after() {
    let input = b"POST /create HTTP/1.1\r\nContent-Length: 3\r\n\r\nhey";
    let result = recognize_bytes(input);
    assert!(result.is_ok());
    let (_, used) = result.unwrap();
    let rem = &input[used..];
    assert_eq!(rem.len(), 3);
    assert_eq!(String::from_utf8(rem.to_vec()).unwrap(), "hey");
}

#[test]
fn bad_content_length_is_reported_as_such() {
    let result = recognize_bytes(b"GET /foobar HTTP/1.0\r\nContent-Length: bad\r\n\r\n");
    assert_eq!(result.err(), Some(HeadError::InvalidContentLength));
}

#[test]
fn one_byte_reads_give_the_same_head() {
    let input = b"GET /hello-world HTTP/1.1\r\nContent-Length: 3\r\nX-Mark: a\xc9\x92b\r\n\r\nhey";
    let (whole, used_whole) = recognize_bytes(input).unwrap();
    let (single, used_single) = recognize_fragmented(input, &[1]).unwrap();
    let (ragged, used_ragged) = recognize_fragmented(input, &[3, 1, 2, 7, 1]).unwrap();
    assert_eq!(used_whole, input.len() - 3);
    assert_eq!(used_single, used_whole);
    assert_eq!(used_ragged, used_whole);
    for head in [&whole, &single, &ragged] {
        assert_eq!(head.method(), Some(RequestMethod::GET));
        assert_eq!(head.path(), Some("/hello-world".to_string()));
        assert_eq!(head.len(), Some(3));
        assert_eq!(head.find_header("x-mark"), Some("a\u{252}b".to_string()));
    }
}

#[test]
fn code_points_split_at_every_offset_decode_alike() {
    let value = "\u{e9}\u{858}\u{10192}";
    let mut input = b"GET / HTTP/1.1\r\nV: ".to_vec();
    input.extend_from_slice(value.as_bytes());
    input.extend_from_slice(b"\r\n\r\n");
    for size in 1..=9 {
        let (head, used) = recognize_fragmented(&input, &[size]).unwrap();
        assert_eq!(used, input.len());
        assert_eq!(head.find_header("V"), Some(value.to_string()));
    }
    for offset in 1..8 {
        let (head, _) = recognize_fragmented(&input, &[19 + offset, 1]).unwrap();
        assert_eq!(head.find_header("v"), Some(value.to_string()));
    }
}

#[test]
fn empty_first_line_and_unknown_method_fail_differently() {
    let empty = recognize_bytes(b"\r\n\r\n").err();
    let unknown = recognize_bytes(b"FETCH / HTTP/1.1\r\n\r\n").err();
    assert_eq!(empty, Some(HeadError::MalformedRequestLine));
    assert_eq!(unknown, Some(HeadError::UnknownMethod));
}

#[test]
fn every_error_kind_has_an_input() {
    let cases: [(&[u8], HeadError); 8] = [
        (b"GET / HTTP/1.1\r\nK: \xff\r\n\r\n", HeadError::InvalidUtf8),
        (b"GET / HTTP/1.1\rX", HeadError::BareLineBreak),
        (b"GET / HTTP/1.1\nX", HeadError::BareLineBreak),
        (b"GET/HTTP/1.1\r\n\r\n", HeadError::MalformedRequestLine),
        (b"get / HTTP/1.1\r\n\r\n", HeadError::UnknownMethod),
        (b"GET / HTTP/2.0\r\n\r\n", HeadError::UnknownVersion),
        (b"GET / HTTP/1.1\r\ncontent-length: 1x\r\n\r\n", HeadError::InvalidContentLength),
        (b"GET / HTTP/1.1\r\nHost: x\r\n", HeadError::UnexpectedEnd),
    ];
    for (input, expected) in cases.iter() {
        assert_eq!(recognize_bytes(input).err(), Some(*expected));
    }
    let long = vec![b'a'; 3000];
    assert_eq!(recognize_bytes(&long).err(), Some(HeadError::HeadTooLarge));
}

#[test]
fn content_length_cases() {
    let (head, _) = recognize_bytes(b"GET / HTTP/1.1\r\nContent-Length: 10\r\n\r\n").unwrap();
    assert_eq!(head.len(), Some(10));
    let (head, _) = recognize_bytes(b"GET / HTTP/1.1\r\nHost: x\r\n\r\n").unwrap();
    assert_eq!(head.len(), None);
    let (head, _) = recognize_bytes(b"GET / HTTP/1.1\r\ncontent-LENGTH: +0\r\n\r\n").unwrap();
    assert_eq!(head.len(), Some(0));
    let too_big = recognize_bytes(b"GET / HTTP/1.1\r\nContent-Length: 99999999999999999999999\r\n\r\n");
    assert_eq!(too_big.err(), Some(HeadError::InvalidContentLength));
}

#[test]
fn canonical_request_round_trips() {
    let input = b"PATCH /a/b?c=d HTTP/1.1\r\nX-Key: some value\r\n\r\n";
    let (head, used) = recognize_bytes(input).unwrap();
    assert_eq!(used, input.len());
    assert_eq!(head.method(), Some(RequestMethod::PATCH));
    assert_eq!(head.path(), Some("/a/b?c=d".to_string()));
    assert_eq!(head.find_header("X-Key"), Some("some value".to_string()));
}

#[test]
fn headers_in_any_number_and_order() {
    let none = recognize_bytes(b"DELETE /x HTTP/1.0\r\n\r\n").unwrap().0;
    assert_eq!(none.find_header("A"), None);
    assert_eq!(none.path(), Some("/x".to_string()));
    let many = recognize_bytes(b"DELETE /x HTTP/1.0\r\nB: 2\r\nA: 1\r\na: 3\r\n\r\n").unwrap().0;
    assert_eq!(many.find_header("a"), Some("1".to_string()));
    assert_eq!(many.find_header("B"), Some("2".to_string()));
    assert_eq!(many.path(), Some("/x".to_string()));
    assert_eq!(many.method(), Some(RequestMethod::DELETE));
}

#[test]
fn lookup_ignores_case() {
    let (head, _) = recognize_bytes(b"GET / HTTP/1.1\r\nContent-Length: 7\r\n\r\n").unwrap();
    assert_eq!(head.find_header("content-length"), head.find_header("Content-Length"));
    assert_eq!(head.find_header("CONTENT-LENGTH"), Some("7".to_string()));
}

#[test]
fn line_without_delimiter_is_left_out() {
    let (head, _) = recognize_bytes(b"GET / HTTP/1.1\r\nHost:x\r\nA: b\r\n\r\n").unwrap();
    assert_eq!(head.find_header("Host"), None);
    assert_eq!(head.find_header("Host:x"), None);
    assert_eq!(head.find_header("A"), Some("b".to_string()));
}

#[test]
fn ill_formed_utf8_is_refused() {
    let forms: [&[u8]; 5] = [
        b"\xc0\xaf",
        b"\xe0\x80\xaf",
        b"\xed\xa0\x80",
        b"\xf4\x90\x80\x80",
        b"\xe2\x82",
    ];
    for form in forms.iter() {
        let mut input = b"GET / HTTP/1.1\r\nK: ".to_vec();
        input.extend_from_slice(form);
        input.extend_from_slice(b"\r\n\r\n");
        assert_eq!(recognize_fragmented(&input, &[1]).err(), Some(HeadError::InvalidUtf8));
    }
}

#[test]
fn scanner_asks_for_no_more_than_the_head() {
    let input = b"GET / HTTP/1.1\r\nA: b\r\n\r\nBODY";
    let mut scanner = Recognizer::new();
    let mut pos = 0;
    while scanner.is_scanning() {
        let w = scanner.window();
        assert!(w >= 1 && w <= 4);
        let end = std::cmp::min(pos + w, input.len());
        let taken = scanner.feed(&input[pos..end]);
        pos += taken;
    }
    assert_eq!(scanner.status(), Status::Done);
    assert_eq!(&input[pos..], b"BODY");
}

#[test]
fn window_follows_the_terminator() {
    let mut scanner = Recognizer::new();
    assert_eq!(scanner.window(), 4);
    assert_eq!(scanner.feed(b"GET "), 4);
    assert_eq!(scanner.feed(b"/ HT"), 4);
    assert_eq!(scanner.feed(b"TP/1"), 4);
    assert_eq!(scanner.feed(b".1\r"), 3);
    assert_eq!(scanner.window(), 3);
    assert_eq!(scanner.feed(b"\nA:"), 3);
    assert_eq!(scanner.window(), 4);
    assert_eq!(scanner.feed(b" \xc9"), 2);
    assert_eq!(scanner.window(), 1);
    assert_eq!(scanner.feed(b"\x92"), 1);
    assert_eq!(scanner.feed(b"\r\n"), 2);
    assert_eq!(scanner.window(), 2);
    assert_eq!(scanner.feed(b"\r"), 1);
    assert_eq!(scanner.window(), 1);
    assert_eq!(scanner.feed(b"\n"), 1);
    assert_eq!(scanner.status(), Status::Done);
    let head = scanner.finish().unwrap();
    assert_eq!(head.find_header("a"), Some("\u{252}".to_string()));
}

#[test]
fn a_smaller_budget_is_kept() {
    let mut scanner = Recognizer::with_limit(20);
    let input = b"GET /a-long-path HTTP/1.1\r\n\r\n";
    let mut pos = 0;
    while scanner.is_scanning() && pos < input.len() {
        let end = std::cmp::min(pos + scanner.window(), input.len());
        pos += scanner.feed(&input[pos..end]);
    }
    assert_eq!(pos, 21);
    assert_eq!(scanner.status(), Status::Failed(HeadError::HeadTooLarge));
    assert_eq!(scanner.partial_line(), b"GET /a-long-path HTT".to_vec());
}

#[test]
fn non_ascii_key_found_through_recognition() {
    let input = "GET / HTTP/1.1\r\n\u{c4}rger: x\r\n\r\n";
    let (head, _) = recognize_bytes(input.as_bytes()).unwrap();
    assert_eq!(head.find_header("\u{e4}RGER"), Some("x".to_string()));
}
