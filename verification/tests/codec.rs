use kvs::command::Command;
use kvs::json::{
    append_bytes, find_literal_end, read_text, read_text_after, skip_spaces, write_text,
};
use kvs::network::{
    decode_request, decode_response, encode_request, encode_response, Error, Req, Resp, SuccResp,
};
use kvs::record::{append_compact, decode_at, encode, match_pattern};

fn text(s: &str) -> String {
    s.to_owned()
}

#[test]
fn a_binding_is_written_as_a_json_object() {
    let cmd = Command::Put { k: text("a"), v: text("1") };
    assert_eq!(encode(&cmd).unwrap(), b"{\"Set\":{\"k\":\"a\",\"v\":\"1\"}}".to_vec());
}

#[test]
fn a_removal_is_written_as_a_json_object() {
    let cmd = Command::Remove { k: text("a") };
    assert_eq!(encode(&cmd).unwrap(), b"{\"Remove\":{\"k\":\"a\"}}".to_vec());
}

#[test]
fn special_characters_are_escaped() {
    let cmd = Command::Remove { k: text("a\"b\\c\n") };
    assert_eq!(encode(&cmd).unwrap(), b"{\"Remove\":{\"k\":\"a\\\"b\\\\c\\n\"}}".to_vec());
}

#[test]
fn records_are_read_where_they_start() {
    let bytes = b"{\"Set\":{\"k\":\"a\",\"v\":\"1\"}}{\"Remove\":{\"k\":\"a\"}}";
    assert_eq!(decode_at(bytes, 0), Some((Command::Put { k: text("a"), v: text("1") }, 25)));
    assert_eq!(decode_at(bytes, 25), Some((Command::Remove { k: text("a") }, 45)));
    assert_eq!(decode_at(bytes, 1), None);
    assert_eq!(decode_at(bytes, 45), None);
    assert_eq!(decode_at(bytes, 1000), None);
}

#[test]
fn escapes_are_read_back() {
    let bytes = b"{\"Set\":{\"k\":\"a\\\"b\",\"v\":\"\\u0041\\\\\"}}";
    assert_eq!(
        decode_at(bytes, 0),
        Some((Command::Put { k: text("a\"b"), v: text("A\\") }, bytes.len()))
    );
}

#[test]
fn a_record_that_is_cut_short_is_none() {
    let whole = b"{\"Set\":{\"k\":\"a\",\"v\":\"1\"}}";
    for cut in 0..whole.len() {
        assert_eq!(decode_at(&whole[..cut], 0), None);
    }
}

#[test]
fn a_literal_that_is_no_json_string_is_none() {
    assert_eq!(decode_at(b"{\"Remove\":{\"k\":\"a\\qb\"}}", 0), None);
    assert_eq!(decode_at(b"{\"Remove\":{\"k\":\"\xff\"}}", 0), None);
    assert_eq!(decode_at(b"{\"Remove\":{\"k\":7}}", 0), None);
}

#[test]
fn what_is_written_reads_back() {
    let commands = vec![
        Command::Put { k: text("key"), v: text("value") },
        Command::Put { k: text(""), v: text("") },
        Command::Put { k: text("\"\\\"\\"), v: text("\u{0}\u{1f}\u{7f}") },
        Command::Remove { k: text("ключ") },
    ];
    let mut log: Vec<u8> = Vec::new();
    let mut starts: Vec<usize> = Vec::new();
    for cmd in commands.iter() {
        starts.push(log.len());
        log.extend_from_slice(&encode(cmd).unwrap());
    }
    for (i, cmd) in commands.iter().enumerate() {
        let end = if i + 1 < starts.len() { starts[i + 1] } else { log.len() };
        assert_eq!(decode_at(&log, starts[i]), Some((cmd.clone(), end)));
    }
}

#[test]
fn a_literal_ends_at_its_closing_quote() {
    assert_eq!(find_literal_end(b"\"abc\"def", 0), Some(5));
    assert_eq!(find_literal_end(b"\"a\\\"c\"def", 0), Some(6));
    assert_eq!(find_literal_end(b"\"a\\\\\"def", 0), Some(5));
    assert_eq!(find_literal_end(b"x\"\"", 1), Some(3));
    assert_eq!(find_literal_end(b"\"abc", 0), None);
    assert_eq!(find_literal_end(b"\"abc\\", 0), None);
    assert_eq!(find_literal_end(b"\"abc\\\"", 0), None);
    assert_eq!(find_literal_end(b"abc\"", 0), None);
    assert_eq!(find_literal_end(b"\"abc\"", 5), None);
    assert_eq!(find_literal_end(b"", 0), None);
}

#[test]
fn text_is_written_quoted_and_read_unquoted() {
    let mut out: Vec<u8> = b"x".to_vec();
    assert!(write_text(&mut out, &text("a\tb")));
    assert_eq!(out, b"x\"a\\tb\"".to_vec());
    assert_eq!(read_text(&out, 1), Some((text("a\tb"), 7)));
    assert_eq!(read_text(&out, 0), None);
}

#[test]
fn bytes_are_appended() {
    let mut out: Vec<u8> = b"ab".to_vec();
    append_bytes(&mut out, b"cd");
    append_bytes(&mut out, b"");
    assert_eq!(out, b"abcd".to_vec());
}

#[test]
fn a_pattern_is_matched_token_by_token() {
    let pattern = b"{ \"k\" :";
    assert_eq!(match_pattern(b"{\"k\":", 0, pattern), Some(5));
    assert_eq!(match_pattern(b"{ \"k\" :", 0, pattern), Some(7));
    assert_eq!(match_pattern(b"{\n\t\"k\"\r\n :x", 0, pattern), Some(10));
    assert_eq!(match_pattern(b"xx{\"k\":", 2, pattern), Some(7));
    assert_eq!(match_pattern(b" {\"k\":", 0, pattern), None);
    assert_eq!(match_pattern(b"{\" k\":", 0, pattern), None);
    assert_eq!(match_pattern(b"{\"k \":", 0, pattern), None);
    assert_eq!(match_pattern(b"{\"k\"", 0, pattern), None);
    assert_eq!(match_pattern(b"{\"k\":", 1, pattern), None);
    assert_eq!(match_pattern(b"{\"k\":", 100, pattern), None);
    assert_eq!(match_pattern(b"abc", 1, b""), Some(1));
    assert_eq!(match_pattern(b"a  ", 1, b" "), Some(3));
}

#[test]
fn a_pattern_is_written_without_its_gaps() {
    let mut out: Vec<u8> = b"x".to_vec();
    append_compact(&mut out, b"{ \"k\" :");
    assert_eq!(out, b"x{\"k\":".to_vec());
    append_compact(&mut out, b" } }");
    assert_eq!(out, b"x{\"k\":}}".to_vec());
    append_compact(&mut out, b"");
    assert_eq!(out, b"x{\"k\":}}".to_vec());
}

#[test]
fn white_space_is_skipped() {
    assert_eq!(skip_spaces(b"  \t\r\n x ", 0), 6);
    assert_eq!(skip_spaces(b"  \t\r\n x ", 6), 6);
    assert_eq!(skip_spaces(b"  \t\r\n x ", 7), 8);
    assert_eq!(skip_spaces(b"   ", 1), 3);
    assert_eq!(skip_spaces(b"abc", 10), 10);
    assert_eq!(skip_spaces(b"\x0b\x0c", 0), 0);
    assert_eq!(read_text_after(b"x \n\"ab\" ", 1), Some((text("ab"), 7)));
    assert_eq!(read_text_after(b"x \n\"ab\" ", 0), None);
}

#[test]
fn requests_are_written_as_on_the_wire() {
    assert_eq!(encode_request(&Req::Get(text("a"))).unwrap(), b"{\"Get\":\"a\"}".to_vec());
    assert_eq!(
        encode_request(&Req::Put(text("a"), text("1"))).unwrap(),
        b"{\"Set\":[\"a\",\"1\"]}".to_vec()
    );
    assert_eq!(encode_request(&Req::Remove(text("a"))).unwrap(), b"{\"Remove\":\"a\"}".to_vec());
}

#[test]
fn requests_are_read_from_the_wire() {
    assert_eq!(decode_request(b"{\"Get\":\"a\"}"), Some(Req::Get(text("a"))));
    assert_eq!(decode_request(b"{\"Set\":[\"a\",\"1\"]}"), Some(Req::Put(text("a"), text("1"))));
    assert_eq!(decode_request(b"{\"Remove\":\"a\"}"), Some(Req::Remove(text("a"))));
    assert_eq!(decode_request(b"{\"Remove\":\"a\"}trailing"), Some(Req::Remove(text("a"))));
    assert_eq!(decode_request(b"{\"Remove\":\"a\""), None);
    assert_eq!(decode_request(b"{\"Set\":[\"a\"]}"), None);
    assert_eq!(decode_request(b"{\"Delete\":\"a\"}"), None);
    assert_eq!(decode_request(b""), None);
}

#[test]
fn responses_are_written_as_on_the_wire() {
    let got: Resp = Ok(SuccResp::Get(Some(text("1"))));
    let missing: Resp = Ok(SuccResp::Get(None));
    let put: Resp = Ok(SuccResp::Put);
    let removed: Resp = Ok(SuccResp::Remove);
    let failed: Resp = Err(Error::Server(text("Key not found")));
    assert_eq!(encode_response(&got).unwrap(), b"{\"Ok\":{\"Get\":\"1\"}}".to_vec());
    assert_eq!(encode_response(&missing).unwrap(), b"{\"Ok\":{\"Get\":null}}".to_vec());
    assert_eq!(encode_response(&put).unwrap(), b"{\"Ok\":\"Set\"}".to_vec());
    assert_eq!(encode_response(&removed).unwrap(), b"{\"Ok\":\"Remove\"}".to_vec());
    assert_eq!(
        encode_response(&failed).unwrap(),
        b"{\"Err\":{\"Server\":\"Key not found\"}}".to_vec()
    );
}

#[test]
fn responses_are_read_from_the_wire() {
    assert_eq!(decode_response(b"{\"Ok\":{\"Get\":\"1\"}}"), Some(Ok(SuccResp::Get(Some(text("1"))))));
    assert_eq!(decode_response(b"{\"Ok\":{\"Get\":null}}"), Some(Ok(SuccResp::Get(None))));
    assert_eq!(decode_response(b"{\"Ok\":{\"Get\":\"null\"}}"), Some(Ok(SuccResp::Get(Some(text("null"))))));
    assert_eq!(decode_response(b"{\"Ok\":\"Set\"}"), Some(Ok(SuccResp::Put)));
    assert_eq!(decode_response(b"{\"Ok\":\"Remove\"}"), Some(Ok(SuccResp::Remove)));
    assert_eq!(
        decode_response(b"{\"Err\":{\"Server\":\"Key not found\"}}"),
        Some(Err(Error::Server(text("Key not found"))))
    );
    assert_eq!(decode_response(b"{\"Ok\":\"Get\"}"), None);
    assert_eq!(decode_response(b"{\"Ok\":{\"Get\":nul"), None);
    assert_eq!(decode_response(b""), None);
}

#[test]
fn messages_read_back_as_they_were_written() {
    let requests = vec![
        Req::Get(text("a \"b\"")),
        Req::Put(text("k\\"), text("\n")),
        Req::Remove(text("")),
    ];
    for req in requests {
        assert_eq!(decode_request(&encode_request(&req).unwrap()), Some(req));
    }
    let responses: Vec<Resp> = vec![
        Ok(SuccResp::Get(Some(text("null}}")))),
        Ok(SuccResp::Get(None)),
        Ok(SuccResp::Put),
        Ok(SuccResp::Remove),
        Err(Error::Server(text("failed to serialize input"))),
    ];
    for resp in responses {
        assert_eq!(decode_response(&encode_response(&resp).unwrap()), Some(resp));
    }
}

#[test]
fn text_is_appended_only_if_it_read_back_whole() {
    let s = text("ab");
    let mut out: Vec<u8> = b"x".to_vec();
    assert!(kvs::json::append_if_read_back(&mut out, &s, b"\"ab\"", Some((text("ab"), 4))));
    assert_eq!(out, b"x\"ab\"".to_vec());
    assert!(!kvs::json::append_if_read_back(&mut out, &s, b"\"ab\"", Some((text("ab"), 3))));
    assert!(!kvs::json::append_if_read_back(&mut out, &s, b"\"ab\"", Some((text("ac"), 4))));
    assert!(!kvs::json::append_if_read_back(&mut out, &s, b"\"ab\"", None));
    assert_eq!(out, b"x\"ab\"".to_vec());
}

#[test]
fn white_space_between_tokens_is_passed_over() {
    assert_eq!(decode_request(b"{\"Get\": \"a\"}"), Some(Req::Get(text("a"))));
    assert_eq!(decode_request(b" {\"Get\":\"a\"}"), Some(Req::Get(text("a"))));
    assert_eq!(
        decode_request(b"\n{ \"Set\" : [ \"a\" ,\t\"1\" ] }\n"),
        Some(Req::Put(text("a"), text("1")))
    );
    assert_eq!(
        decode_request(b"{\r\n  \"Remove\": \"a b\"\r\n}"),
        Some(Req::Remove(text("a b")))
    );
    assert_eq!(decode_response(b"{\"Ok\": \"Set\"}"), Some(Ok(SuccResp::Put)));
    assert_eq!(decode_response(b" { \"Ok\" : \"Remove\" } "), Some(Ok(SuccResp::Remove)));
    assert_eq!(
        decode_response(b"{ \"Ok\" : { \"Get\" : null } }"),
        Some(Ok(SuccResp::Get(None)))
    );
    assert_eq!(
        decode_response(b"{ \"Ok\" : { \"Get\" : \" null \" } }"),
        Some(Ok(SuccResp::Get(Some(text(" null ")))))
    );
    assert_eq!(
        decode_response(b"{\n  \"Err\": {\n    \"Server\": \"Key not found\"\n  }\n}"),
        Some(Err(Error::Server(text("Key not found"))))
    );
    assert_eq!(
        decode_at(b"{\"Set\":{\"k\":\"a\", \"v\":\"1\"}}", 0),
        Some((Command::Put { k: text("a"), v: text("1") }, 26))
    );
    assert_eq!(
        decode_at(b"{ \"Remove\" : { \"k\" : \"a\" } } ", 0),
        Some((Command::Remove { k: text("a") }, 28))
    );
}

#[test]
fn white_space_inside_a_token_is_not_passed_over() {
    assert_eq!(decode_request(b"{\"Get \":\"a\"}"), None);
    assert_eq!(decode_request(b"{\" Get\":\"a\"}"), None);
    assert_eq!(decode_response(b"{\"Ok\":{\"Get\":nu ll}}"), None);
    assert_eq!(decode_request(b"{\"Get\":\x0b\"a\"}"), None);
    assert_eq!(decode_at(b" {\"Remove\":{\"k\":\"a\"}}", 0), None);
}

#[test]
fn fields_are_read_in_the_order_in_which_they_are_written() {
    assert_eq!(decode_at(b"{\"Set\":{\"v\":\"1\",\"k\":\"a\"}}", 0), None);
    assert_eq!(decode_at(b"{\"Set\":{\"k\":\"a\",\"v\":\"1\",\"x\":\"2\"}}", 0), None);
}
