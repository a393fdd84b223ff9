use pingora_enclavia::http_echo::{answer_requests, find_double_crlf, try_synthesize_http};

fn answer(method: &str, body: &str) -> Vec<u8> {
    format!(
        "HTTP/1.1 200 OK\r\nContent-Length: {}\r\nContent-Type: text/plain\r\nHello-Method: {}\r\nConnection: close\r\n\r\n{}",
        body.len(),
        method,
        body
    )
    .into_bytes()
}

#[test]
fn finds_the_end_of_a_head() {
    assert_eq!(find_double_crlf(b"GET / HTTP/1.1\r\n\r\nbody"), Some(18));
    assert_eq!(find_double_crlf(b"\r\n\r\n"), Some(4));
    assert_eq!(find_double_crlf(b"a\r\n\r\n\r\n\r\n"), Some(5));
    assert_eq!(find_double_crlf(b"\r\r\n\r\n"), Some(5));
    assert_eq!(find_double_crlf(b"GET / HTTP/1.1\r\n"), None);
    assert_eq!(find_double_crlf(b"\r\n\r"), None);
    assert_eq!(find_double_crlf(b""), None);
}

#[test]
fn answers_a_request_without_a_body() {
    let mut accum = b"GET /hello HTTP/1.1\r\nHost: x\r\n\r\n".to_vec();
    assert_eq!(try_synthesize_http(&mut accum), Some(answer("GET", "")));
    assert!(accum.is_empty());
}

#[test]
fn repeats_the_body_and_keeps_what_follows() {
    let mut accum = b"POST / HTTP/1.1\r\nContent-Length: 5\r\n\r\nhelloGET /".to_vec();
    assert_eq!(try_synthesize_http(&mut accum), Some(answer("POST", "hello")));
    assert_eq!(accum, b"GET /".to_vec());
}

#[test]
fn takes_pipelined_requests_one_by_one() {
    let mut accum = b"GET /a HTTP/1.1\r\n\r\nPUT /b HTTP/1.1\r\ncontent-length: 2\r\n\r\nok".to_vec();
    assert_eq!(try_synthesize_http(&mut accum), Some(answer("GET", "")));
    assert_eq!(try_synthesize_http(&mut accum), Some(answer("PUT", "ok")));
    assert_eq!(try_synthesize_http(&mut accum), None);
    assert!(accum.is_empty());
}

#[test]
fn waits_for_head_and_body() {
    let whole = b"POST /x HTTP/1.1\r\nContent-Length:  3 \r\n\r\nabc";
    for cut in 0..whole.len() {
        let mut accum = whole[..cut].to_vec();
        assert_eq!(try_synthesize_http(&mut accum), None);
        assert_eq!(accum, whole[..cut].to_vec());
        accum.extend_from_slice(&whole[cut..]);
        assert_eq!(try_synthesize_http(&mut accum), Some(answer("POST", "abc")));
        assert!(accum.is_empty());
    }
}

#[test]
fn the_last_content_length_counts() {
    let mut accum = b"POST / H\r\nContent-Length: 9\r\ncontent-length: 1\r\n\r\nz".to_vec();
    assert_eq!(try_synthesize_http(&mut accum), Some(answer("POST", "z")));
}

#[test]
fn other_spellings_and_bad_numbers_declare_no_body() {
    let heads = [
        "POST / H\r\nCONTENT-LENGTH: 4\r\n\r\n",
        "POST / H\r\nContent-Length: four\r\n\r\n",
        "POST / H\r\nContent-Length: -4\r\n\r\n",
        "POST / H\r\nContent-Length: 4 4\r\n\r\n",
        "POST / H\r\nContent-Length:\r\n\r\n",
        "POST / H\r\nContent-Length: 99999999999999999999999\r\n\r\n",
        "POST / H\r\n Content-Length: 4\r\n\r\n",
    ];
    for head in heads {
        let mut accum = head.as_bytes().to_vec();
        assert_eq!(try_synthesize_http(&mut accum), Some(answer("POST", "")), "{head}");
        assert!(accum.is_empty());
    }
}

#[test]
fn a_plus_sign_and_white_space_are_part_of_a_number() {
    let mut accum = b"POST / H\r\nContent-Length:\t+2\x0b\r\n\r\nhi".to_vec();
    assert_eq!(try_synthesize_http(&mut accum), Some(answer("POST", "hi")));
}

#[test]
fn a_length_that_cannot_arrive_keeps_waiting() {
    let mut accum = format!("POST / H\r\nContent-Length: {}\r\n\r\nabc", usize::MAX).into_bytes();
    let before = accum.clone();
    assert_eq!(try_synthesize_http(&mut accum), None);
    assert_eq!(accum, before);
}

#[test]
fn a_head_that_is_no_utf8_is_left_alone() {
    let mut accum = b"GET /\xff H\r\n\r\n".to_vec();
    assert_eq!(try_synthesize_http(&mut accum), None);
    assert_eq!(accum, b"GET /\xff H\r\n\r\n".to_vec());
}

#[test]
fn the_method_may_be_empty_or_not_ascii() {
    let mut accum = b"\r\n\r\n".to_vec();
    assert_eq!(try_synthesize_http(&mut accum), Some(answer("", "")));
    let mut accum = "H\u{e9}LLO / H\r\n\r\n".as_bytes().to_vec();
    assert_eq!(try_synthesize_http(&mut accum), Some(answer("H\u{e9}LLO", "")));
}

#[test]
fn all_complete_requests_are_answered() {
    let mut accum = b"GET /a H\r\n\r\nPUT /b H\r\ncontent-length: 2\r\n\r\nokPO".to_vec();
    assert_eq!(answer_requests(&mut accum), vec![answer("GET", ""), answer("PUT", "ok")]);
    assert_eq!(accum, b"PO".to_vec());
    assert_eq!(answer_requests(&mut accum), Vec::<Vec<u8>>::new());
    assert_eq!(accum, b"PO".to_vec());
}

#[test]
fn an_answer_delimits_itself() {
    let requests: [&[u8]; 4] = [
        b"GET / H\r\n\r\n",
        b"a\r\r\nContent-Length: 4\r\n\r\n\r\n\r\n",
        b"\n\rX\n / H\r\ncontent-length: 3\r\n\r\nabc",
        "H\u{e9}\r / H\r\nContent-Length: 1\r\n\r\n\r".as_bytes(),
    ];
    for request in requests {
        let mut accum = request.to_vec();
        let response = try_synthesize_http(&mut accum).unwrap();
        assert!(accum.is_empty());
        let end = find_double_crlf(&response).unwrap();
        let head = std::str::from_utf8(&response[..end]).unwrap();
        let line = head.split("\r\n").nth(1).unwrap();
        let length: usize = line.strip_prefix("Content-Length: ").unwrap().parse().unwrap();
        assert_eq!(end + length, response.len());
    }
}
