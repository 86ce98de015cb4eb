use rfx_voiced::http::{
    b64, body_so_far, find, head_status, read_head, respond, respond_with, Reading,
};
use rfx_voiced::json::{parse, payload_of, Json, Reply};

#[test]
fn a_needle_is_found_where_it_first_stands() {
    assert_eq!(find(b"abcabc", b"ca"), Some(2));
    assert_eq!(find(b"abcabc", b"x"), None);
    assert_eq!(find(b"a", b"abc"), None);
}

#[test]
fn a_head_is_read_until_its_blank_line() {
    assert!(matches!(head_status(b"POST / HTTP/1.1\r\n"), Reading::More));
    assert!(matches!(head_status(b"A\r\n\r\nbody"), Reading::Whole(5)));
    assert!(matches!(head_status(&vec![b'x'; 65_537]), Reading::TooLarge));
    assert_eq!(body_so_far(b"A\r\n\r\nbody", 5), b"body".to_vec());
}

#[test]
fn headers_are_found_whatever_their_case() {
    let h = read_head(
        b"POST /a/b/tg.open?x=1 HTTP/1.1\r\nContent-LENGTH:  42 \r\nX-Rfx-Key: abc\r\n\r\n",
    );
    assert_eq!(h.path, "tg.open");
    assert_eq!(h.length, 42);
    assert_eq!(h.key.as_deref(), Some("abc"));
    assert_eq!(h.node_key, "");
}

#[test]
fn a_path_prefix_is_ignored() {
    for line in ["POST /unkey HTTP/1.1", "POST /control/unkey HTTP/1.1", "POST unkey HTTP/1.1"] {
        assert_eq!(read_head(format!("{line}\r\n\r\n").as_bytes()).path, "unkey");
    }
    assert_eq!(read_head(b"\r\n\r\n").path, "");
}

#[test]
fn a_length_that_is_no_number_is_none_at_all() {
    let h = read_head(b"POST / HTTP/1.1\r\nContent-Length: many\r\nX-Node-Key: k\r\n\r\n");
    assert_eq!(h.length, 0);
    assert_eq!(h.node_key, "k");
    assert!(h.key.is_none());
}

/// Bytes that are no text become the replacement character.
#[test]
fn a_head_that_is_no_text_is_read_all_the_same() {
    let h = read_head(b"POST /k\xff HTTP/1.1\r\n\r\n");
    assert_eq!(h.path, "k\u{fffd}");
}

#[test]
fn an_answer_says_how_long_it_is() {
    assert_eq!(
        respond_with(200, "{\"ok\":true}"),
        b"HTTP/1.1 200 OK\r\nContent-Type: application/json\r\nContent-Length: 11\r\nConnection: close\r\n\r\n{\"ok\":true}"
            .to_vec()
    );
    for (code, line) in [
        (400u16, "400 Bad Request"),
        (401, "401 Unauthorized"),
        (404, "404 Not Found"),
        (409, "409 Conflict"),
        (431, "431 Request Header Fields Too Large"),
        (500, "500 Error"),
    ] {
        let text = String::from_utf8(respond_with(code, "")).unwrap();
        assert!(text.starts_with(&format!("HTTP/1.1 {line}\r\n")));
    }
}

#[test]
fn a_reply_is_written_as_json() {
    let reply = Reply::new()
        .flag("ok", false)
        .count("n", 7)
        .words("error", "a \"quoted\" word".to_string());
    let sent = respond(400, &reply);
    let end = find(&sent, b"\r\n\r\n").unwrap() + 4;
    let back = parse(&sent[end..]).unwrap();
    assert!(!back.flag_at("ok"));
    assert_eq!(back.number_at("n"), Some(7));
    assert_eq!(back.text_at("error").as_deref(), Some("a \"quoted\" word"));
}

#[test]
fn base64_pads_what_is_left() {
    for (data, text) in [
        ("", ""),
        ("f", "Zg=="),
        ("fo", "Zm8="),
        ("foo", "Zm9v"),
        ("foobar", "Zm9vYmFy"),
    ] {
        assert_eq!(b64(data.as_bytes()), text);
    }
    assert_eq!(b64(&[0xfb, 0xff]), "+/8=");
}

#[test]
fn a_body_is_read_as_json_or_as_nothing() {
    let body = payload_of(br#"{ "tg": 4294967297, "f": 1.5, "am": true, "unit": { "a": [1] }, "n": null }"#);
    assert_eq!(body.number_at("tg"), Some(4294967297));
    assert_eq!(body.u32_at("tg"), Some(1), "cut down to 32 bits");
    assert_eq!(body.number_at("f"), None);
    assert!(body.flag_at("am"));
    assert_eq!(body.get("unit").unwrap().shown(), "{\"a\":[1]}");
    assert_eq!(body.get("f").unwrap().shown(), "1.5");
    assert_eq!(body.get("n").unwrap().shown(), "null");
    assert!(body.get("missing").is_none());
    assert!(matches!(payload_of(b"not json"), Json::Object(m, _) if m.is_empty()));
    assert!(matches!(payload_of(b""), Json::Object(m, _) if m.is_empty()));
    assert!(parse(b"not json").is_none());
    assert_eq!(parse(b"\"text\"").unwrap().shown(), "text");
    assert_eq!(parse(b"-3").unwrap().as_u64(), None);
    assert_eq!(parse(b"true").unwrap().as_bool(), Some(true));
}
