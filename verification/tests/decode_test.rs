// Response decoding: status line, headers, and the three body framings.

use shift_it::headers::Headers;
use shift_it::http_request::{HttpRequest, HttpTarget, TransportPlan};
use shift_it::http_response::{
    body_framing, decode_chunked, decode_content_length, decode_until_close,
    header_match_any_case, next_line, read_chunk_length, read_header, read_status_line,
    BodyFraming, HttpResponse, StatusClass,
};
use shift_it::HttpError;

fn collect_body(resp: &mut HttpResponse) -> Vec<u8> {
    let mut body = Vec::new();
    while let Some(b) = resp.next() {
        body.push(b);
    }
    body
}

#[test]
fn status_line_client_error() {
    let bytes = b"HTTP/1.1 404 Not Found\r\n".to_vec();
    let (line, _) = next_line(&bytes, 0);
    let st = read_status_line(&line).unwrap();
    assert_eq!(st.code, 404);
    assert_eq!(st.class, StatusClass::ClientError);
    assert_eq!(st.message, "Not Found");
}

#[test]
fn status_line_wrong_version_is_rejected() {
    let bytes = b"HTTP/1.0 200 OK\r\n".to_vec();
    let (line, _) = next_line(&bytes, 0);
    assert_eq!(read_status_line(&line).unwrap_err(), HttpError::ProtocolMismatch);
}

#[test]
fn status_line_unparsable_code_is_invalid() {
    let bytes = b"HTTP/1.1 abc Weird\r\n".to_vec();
    let (line, _) = next_line(&bytes, 0);
    let st = read_status_line(&line).unwrap();
    assert_eq!(st.code, 0);
    assert_eq!(st.class, StatusClass::Invalid);
    assert_eq!(st.message, "Weird");
}

#[test]
fn status_line_huge_code_is_invalid() {
    let bytes = b"HTTP/1.1 99999 Huge\r\n".to_vec();
    let (line, _) = next_line(&bytes, 0);
    let st = read_status_line(&line).unwrap();
    assert_eq!(st.code, 0);
    assert_eq!(st.class, StatusClass::Invalid);
}

#[test]
fn status_line_missing_reason_is_empty() {
    let bytes = b"HTTP/1.1 204\r\n".to_vec();
    let (line, _) = next_line(&bytes, 0);
    let st = read_status_line(&line).unwrap();
    assert_eq!(st.code, 204);
    assert_eq!(st.class, StatusClass::Success);
    assert_eq!(st.message, "");
}

#[test]
fn status_line_reason_keeps_spaces() {
    let bytes = b"HTTP/1.1 500 Internal Server Error\r\n".to_vec();
    let (line, _) = next_line(&bytes, 0);
    let st = read_status_line(&line).unwrap();
    assert_eq!(st.code, 500);
    assert_eq!(st.class, StatusClass::ServerError);
    assert_eq!(st.message, "Internal Server Error");
}

#[test]
fn header_decode_comma_values() {
    let bytes = b"Accept: text/html, application/json\r\n".to_vec();
    let (line, _) = next_line(&bytes, 0);
    let mut headers = Headers::new();
    read_header(&mut headers, &line).unwrap();
    assert_eq!(
        headers.get("Accept").unwrap(),
        &vec!["text/html".to_string(), "application/json".to_string()]
    );
}

#[test]
fn header_decode_repeated_key_accumulates() {
    let mut headers = Headers::new();
    let bytes = b"Accept: text/html\r\nAccept: application/json\r\n".to_vec();
    let (line1, pos) = next_line(&bytes, 0);
    read_header(&mut headers, &line1).unwrap();
    let (line2, _) = next_line(&bytes, pos);
    read_header(&mut headers, &line2).unwrap();
    assert_eq!(
        headers.get("Accept").unwrap(),
        &vec!["text/html".to_string(), "application/json".to_string()]
    );
}

#[test]
fn header_without_separator_is_malformed() {
    let bytes = b"NoColonHere\r\n".to_vec();
    let (line, _) = next_line(&bytes, 0);
    let mut headers = Headers::new();
    assert_eq!(read_header(&mut headers, &line).unwrap_err(), HttpError::MalformedHeader);
    assert_eq!(headers.len(), 0);
}

#[test]
fn header_match_ignores_value_case() {
    let mut headers = Headers::new();
    headers.add("Transfer-Encoding", "CHUNKED".to_string());
    assert!(header_match_any_case(&headers, "Transfer-Encoding", "chunked"));
    assert!(!header_match_any_case(&headers, "Transfer-Encoding", "gzip"));
    assert!(!header_match_any_case(&headers, "transfer-encoding", "chunked"));
}

#[test]
fn framing_prefers_chunked_over_length() {
    let mut headers = Headers::new();
    headers.add("Content-Length", "10".to_string());
    headers.add("Transfer-Encoding", "chunked".to_string());
    assert_eq!(body_framing(&headers), BodyFraming::Chunked);
}

#[test]
fn framing_content_length() {
    let mut headers = Headers::new();
    headers.add("Content-Length", "10".to_string());
    assert_eq!(body_framing(&headers), BodyFraming::ContentLength(10));
}

#[test]
fn framing_bad_length_falls_back_to_close() {
    let mut headers = Headers::new();
    headers.add("Content-Length", "ten".to_string());
    assert_eq!(body_framing(&headers), BodyFraming::UntilClose);
    let empty = Headers::new();
    assert_eq!(body_framing(&empty), BodyFraming::UntilClose);
}

#[test]
fn chunk_length_lines() {
    let bytes = b"1a\r\ndata".to_vec();
    let (r, pos) = read_chunk_length(&bytes, 0);
    assert_eq!(r.unwrap(), 26);
    assert_eq!(pos, 4);

    let ext = b"4;name=value\r\n".to_vec();
    let (r, _) = read_chunk_length(&ext, 0);
    assert_eq!(r.unwrap(), 4);

    let bad = b"zz\r\n".to_vec();
    let (r, _) = read_chunk_length(&bad, 0);
    assert_eq!(r.unwrap_err(), HttpError::MalformedChunk);

    let empty = b"\r\n".to_vec();
    let (r, _) = read_chunk_length(&empty, 0);
    assert_eq!(r.unwrap_err(), HttpError::MalformedChunk);
}

#[test]
fn chunked_decode_concatenates_chunks() {
    let stream = b"4\r\nWiki\r\n5\r\npedia\r\n0\r\n\r\n".to_vec();
    let (body, err) = decode_chunked(&stream, 0);
    assert_eq!(body, b"Wikipedia".to_vec());
    assert_eq!(err, None);
}

#[test]
fn chunked_decode_full_response() {
    let raw =
        b"HTTP/1.1 200 OK\r\nTransfer-Encoding: chunked\r\n\r\n4\r\nWiki\r\n5\r\npedia\r\n0\r\n\r\n"
        .to_vec();
    let mut resp = HttpResponse::new(raw).unwrap();
    assert_eq!(resp.status_code, 200);
    assert_eq!(resp.body_error(), None);
    assert_eq!(collect_body(&mut resp), b"Wikipedia".to_vec());
    assert_eq!(resp.next(), None);
}

#[test]
fn chunked_decode_bad_size_line() {
    let stream = b"4\r\nWiki\r\nnope\r\n".to_vec();
    let (body, err) = decode_chunked(&stream, 0);
    assert_eq!(body, b"Wiki".to_vec());
    assert_eq!(err, Some(HttpError::MalformedChunk));
}

#[test]
fn chunked_decode_truncated_data() {
    let stream = b"6\r\nWiki".to_vec();
    let (body, err) = decode_chunked(&stream, 0);
    assert_eq!(body, b"Wiki".to_vec());
    assert_eq!(err, Some(HttpError::TruncatedBody));
}

#[test]
fn content_length_exact() {
    let raw = b"HTTP/1.1 200 OK\r\nContent-Length: 5\r\n\r\nHello".to_vec();
    let mut resp = HttpResponse::new(raw).unwrap();
    assert_eq!(resp.body_error(), None);
    assert_eq!(collect_body(&mut resp), b"Hello".to_vec());
}

#[test]
fn content_length_ignores_trailing_bytes() {
    let raw = b"HTTP/1.1 200 OK\r\nContent-Length: 5\r\n\r\nHelloXYZ".to_vec();
    let mut resp = HttpResponse::new(raw).unwrap();
    assert_eq!(resp.body_error(), None);
    assert_eq!(collect_body(&mut resp), b"Hello".to_vec());
}

#[test]
fn content_length_truncated() {
    let raw = b"HTTP/1.1 200 OK\r\nContent-Length: 5\r\n\r\nHel".to_vec();
    let mut resp = HttpResponse::new(raw).unwrap();
    assert_eq!(resp.body_error(), Some(HttpError::TruncatedBody));
    assert_eq!(collect_body(&mut resp), b"Hel".to_vec());
}

#[test]
fn content_length_direct_decode() {
    let bytes = b"Hello".to_vec();
    let (body, err) = decode_content_length(&bytes, 0, 5);
    assert_eq!(body, b"Hello".to_vec());
    assert_eq!(err, None);
    let (body, err) = decode_content_length(&bytes, 0, 9);
    assert_eq!(body, b"Hello".to_vec());
    assert_eq!(err, Some(HttpError::TruncatedBody));
}

#[test]
fn until_close_reads_everything() {
    let raw = b"HTTP/1.1 200 OK\r\nServer: x\r\n\r\nuntil the very end".to_vec();
    let mut resp = HttpResponse::new(raw).unwrap();
    assert_eq!(resp.body_error(), None);
    assert_eq!(collect_body(&mut resp), b"until the very end".to_vec());
    assert_eq!(resp.next(), None);

    let bytes = b"tail".to_vec();
    assert_eq!(decode_until_close(&bytes, 0), b"tail".to_vec());
}

#[test]
fn bare_newlines_are_tolerated() {
    let raw = b"HTTP/1.1 200 OK\nContent-Length: 3\n\nabc".to_vec();
    let mut resp = HttpResponse::new(raw).unwrap();
    assert_eq!(resp.status_code, 200);
    assert_eq!(resp.status_message, "OK");
    assert_eq!(collect_body(&mut resp), b"abc".to_vec());
}

#[test]
fn malformed_header_aborts_response() {
    let raw = b"HTTP/1.1 200 OK\r\nBadHeader\r\n\r\n".to_vec();
    assert_eq!(HttpResponse::new(raw).unwrap_err(), HttpError::MalformedHeader);
}

#[test]
fn empty_input_is_protocol_mismatch() {
    assert_eq!(HttpResponse::new(Vec::new()).unwrap_err(), HttpError::ProtocolMismatch);
}

#[test]
fn response_exposes_status_and_headers() {
    let raw = b"HTTP/1.1 301 Moved Permanently\r\nLocation: http://other/\r\n\r\n".to_vec();
    let resp = HttpResponse::new(raw).unwrap();
    assert_eq!(resp.status_code, 301);
    assert_eq!(resp.status_class, StatusClass::Redirection);
    assert_eq!(resp.status_message, "Moved Permanently");
    assert_eq!(resp.headers.get("Location").unwrap(), &vec!["http://other/".to_string()]);
}

#[test]
fn round_trip_request_head() {
    let mut rq = HttpRequest::new("http://example.com/search?q=term").unwrap();
    rq.add_header("Accept", "text/html");
    let bytes = rq.request_bytes("GET", None);

    let (first, mut pos) = next_line(&bytes, 0);
    assert_eq!(String::from_utf8(first).unwrap(), "GET /search?q=term HTTP/1.1");

    let mut headers = Headers::new();
    loop {
        let (line, p) = next_line(&bytes, pos);
        pos = p;
        if line.is_empty() {
            break;
        }
        read_header(&mut headers, &line).unwrap();
    }
    assert_eq!(pos, bytes.len());
    assert_eq!(headers.get("Host").unwrap(), &vec!["example.com".to_string()]);
    assert_eq!(headers.get("Connection").unwrap(), &vec!["close".to_string()]);
    assert_eq!(headers.get("Content-Length").unwrap(), &vec!["0".to_string()]);
    assert_eq!(headers.get("Accept").unwrap(), &vec!["text/html".to_string()]);
}

#[test]
fn unknown_scheme_has_no_target() {
    let rq = HttpRequest::new("ftp://files.example.com/a").unwrap();
    assert_eq!(rq.request_target(), HttpTarget::NoTarget);
}

#[test]
fn unparsable_url_is_a_configuration_error() {
    assert_eq!(HttpRequest::new("not a url").unwrap_err(), HttpError::ConfigurationError);
}

#[test]
fn hostless_url_falls_back_to_localhost() {
    let rq = HttpRequest::new("unix:/run/foo.socket").unwrap();
    assert_eq!(rq.domain(), "localhost");
    assert_eq!(rq.request_target(), HttpTarget::NoTarget);
}

#[test]
fn connection_plans_follow_the_scheme() {
    let plain = HttpRequest::new("http://purple.com/").unwrap().connection_plan().unwrap();
    assert_eq!(plain, TransportPlan::Plain("purple.com:80".to_string()));
    let tls = HttpRequest::new("https://google.com:1234/x").unwrap().connection_plan().unwrap();
    assert_eq!(
        tls,
        TransportPlan::Tls("google.com:1234".to_string(), "google.com".to_string())
    );
    let err = HttpRequest::new("ftp://files.example.com/a").unwrap().connection_plan();
    assert_eq!(err.unwrap_err(), HttpError::ConfigurationError);
}
