//! Patterns, texts, hashing, generated data and the network rules.
use rivus_runtime::expr::Func;
use rivus_runtime::func::{call_text1, call_text2, substr_1based};
use rivus_runtime::fxhash::{FxBuild, FxHasher};
use rivus_runtime::float::F64;
use rivus_runtime::gendata::{bin_clean, clean, error_heavy, jsonl_clean, mixed_types, Rng};
use rivus_runtime::net::{
    check_capability, header_line, header_value, http_body, is_loopback, on_response,
    parse_headers, parse_http_url, parse_tcp_url, request_text, resolve_redirect, size_of_chunk,
    split_host_port, status_of, too_many_redirects, AfterSize, BodyMode, HeaderLine, NextRead,
    Reply,
};
use rivus_runtime::pattern::{glob_match, like_match, regexp_match, regexp_verdict};
use rivus_runtime::strings::{
    parse_i64, path_basename, path_dirname, path_stem, read_hex, replace, split, split_part,
    uri_scheme,
};
use rivus_runtime::text::{i64_text, same_text, u64_text};
use rivus_runtime::value::Value;
use std::hash::{BuildHasher, Hasher};

fn text_of(v: &Value) -> String {
    match v {
        Value::Str(s) => s.clone(),
        other => panic!("not a text: {:?}", other),
    }
}

#[test]
fn like_wildcards() {
    assert!(like_match("JP-1234", "JP-%"));
    assert!(like_match("JP-1234", "%234"));
    assert!(like_match("JP-1234", "%-%"));
    assert!(like_match("JP-1234", "__-____"));
    assert!(like_match("abc", "%"));
    assert!(like_match("", "%"));
    assert!(like_match("abc", "abc"));
    assert!(!like_match("JP-1234", "US-%"));
    assert!(!like_match("ab", "abc"));
    assert!(like_match("abc", "ab_"));
}

#[test]
fn like_underscore_is_exactly_one() {
    assert!(like_match("abc", "ab_"));
    assert!(!like_match("ab", "ab_"));
    assert!(!like_match("abcd", "ab_"));
}

#[test]
fn glob_wildcards_and_classes() {
    assert!(glob_match("JP-0042", "[JD]*-00??"));
    assert!(glob_match("DE-0099", "[JD]*-00??"));
    assert!(!glob_match("US-0007", "[JD]*-00??"));
    assert!(glob_match("abc", "a?c"));
    assert!(glob_match("abc", "a*"));
    assert!(glob_match("a-z", "[a-z]-[a-z]"));
    assert!(!glob_match("A-z", "[a-z]-[a-z]"));
    assert!(glob_match("x", "[!abc]"));
    assert!(!glob_match("a", "[!abc]"));
    assert!(glob_match("anything", "*"));
    assert!(glob_match("", "*"));
}

#[test]
fn no_catastrophic_backtracking() {
    let text = "a".repeat(64);
    let pat = "%".repeat(50) + "b";
    assert!(!like_match(&text, &pat));
}

#[test]
fn regexp_partial_and_anchored() {
    assert!(regexp_match("JP-1234", r"^JP-\d{4}$"));
    assert!(regexp_match("xx JP-9 yy", r"JP-\d"));
    assert!(!regexp_match("US-1234", r"^JP-\d{4}$"));
    assert!(regexp_match("abc", r"[a-c]+"));
    assert!(!regexp_match("abc", r"([unclosed"));
}

#[test]
fn a_pattern_that_does_not_compile_matches_nothing() {
    assert!(!regexp_verdict(None));
    assert!(regexp_verdict(Some(true)));
    assert!(!regexp_verdict(Some(false)));
}

#[test]
fn substr_is_one_based() {
    let at = |x: f64| F64 { bits: x.to_bits() };
    assert_eq!(substr_1based("hello", at(1.0), 3), "hel");
    assert_eq!(substr_1based("hello", at(2.0), 3), "ell");
    assert_eq!(substr_1based("hello", at(3.0), u64::MAX), "llo");
    assert_eq!(substr_1based("hello", at(0.0), 3), "hel");
    assert_eq!(substr_1based("hello", at(-5.0), 3), "hel");
    assert_eq!(substr_1based("hello", at(99.0), 3), "");
    assert_eq!(substr_1based("hello", at(1.0), u64::MAX), "hello");
}

#[test]
fn case_mappings_are_those_of_unicode() {
    assert_eq!(text_of(&call_text1(Func::Upper, "straße é")), "STRASSE É");
    assert_eq!(text_of(&call_text1(Func::Lower, "ÀB1")), "àb1");
    assert_eq!(text_of(&call_text1(Func::Trim, "  x\t")), "x");
    assert!(call_text2(Func::Contains, "hello", "ell"));
    assert!(call_text2(Func::StartsWith, "hello", "he"));
    assert!(!call_text2(Func::EndsWith, "hello", "he"));
}

#[test]
fn texts_are_compared_and_written() {
    assert!(same_text("añ", "añ"));
    assert!(!same_text("a", "b"));
    assert_eq!(u64_text(u64::MAX), "18446744073709551615");
    assert_eq!(i64_text(i64::MIN), "-9223372036854775808");
    assert_eq!(i64_text(0), "0");
}

#[test]
fn texts_are_taken_apart() {
    assert_eq!(split("a,b,,c", ","), vec!["a", "b", "", "c"]);
    assert_eq!(split_part("a/b/c", "/", 2), "b");
    assert_eq!(replace("aXbX", "X", "--"), "a--b--");
    assert_eq!(path_basename("/x/y.tar.gz"), "y.tar.gz");
    assert_eq!(path_stem("/x/y.tar.gz"), "y.tar");
    assert_eq!(path_dirname("/x/y.txt"), "/x");
    assert_eq!(uri_scheme("http://h/p"), "http");
    assert_eq!(parse_i64("-42"), Some(-42));
    assert_eq!(parse_i64("9223372036854775808"), None);
    assert_eq!(read_hex("1aF"), Some(0x1af));
    assert_eq!(read_hex("zz"), None);
}

#[test]
fn deterministic() {
    let b = FxBuild::default();
    let h1 = b.hash_one("country\u{1f}category");
    let h2 = FxBuild::default().hash_one("country\u{1f}category");
    assert_eq!(h1, h2);
    assert_ne!(h1, b.hash_one("country\u{1f}categorz"));
}

#[test]
fn str_borrow_lookup() {
    let mut m: std::collections::HashMap<String, i32, FxBuild> =
        std::collections::HashMap::default();
    m.insert("r0".to_string(), 1);
    assert_eq!(m.get("r0"), Some(&1));
    assert_eq!(m.get("r1"), None);
}

#[test]
fn a_word_is_rotated_mixed_and_multiplied() {
    let mut h = FxHasher::new();
    h.write_u64(1);
    assert_eq!(h.finish(), 0x517c_c1b7_2722_0a95);
    let mut bytes = FxHasher::new();
    bytes.write(&[1, 0, 0, 0, 0, 0, 0, 0]);
    assert_eq!(bytes.finish(), h.finish());
}

#[test]
fn the_generator_is_fixed_by_its_seed() {
    let mut a = Rng::new(7);
    let mut b = Rng::new(7);
    assert_eq!(a.next_u64(), b.next_u64());
    assert_eq!(a.below(10), b.below(10));
    assert!(Rng::new(1).next_u64() != Rng::new(2).next_u64());
    for _ in 0..100 {
        assert!(a.below(3) < 3);
    }
}

#[test]
fn generated_files_have_their_rows() {
    let t = clean(20, 42);
    assert_eq!(t.lines().count(), 21);
    assert_eq!(t.lines().next(), Some("id,name,age,score,country,active"));
    assert!(t.lines().skip(1).all(|l| l.split(',').count() == 6));
    assert_eq!(clean(20, 42), t);
    assert_eq!(jsonl_clean(20, 42).lines().count(), 20);
    assert_eq!(error_heavy(50, 0, 1).lines().count(), 51);
    assert_eq!(mixed_types(50, 0, 1).lines().count(), 51);
    assert_eq!(error_heavy(0, 0, 1).lines().count(), 1);
    let one = bin_clean(1, 42).len();
    assert_eq!(bin_clean(3, 42).len(), 3 * one);
}

#[test]
fn parses_http_urls() {
    let u = parse_http_url("http://127.0.0.1:8080/data.csv").unwrap();
    assert_eq!(u.host, "127.0.0.1");
    assert_eq!(u.port, 8080);
    assert_eq!(u.path, "/data.csv");
    let u = parse_http_url("http://localhost/x").unwrap();
    assert_eq!(u.port, 80);
    let u = parse_http_url("http://example.com").unwrap();
    assert_eq!(u.path, "/");
}

#[test]
fn rejects_https() {
    assert!(parse_http_url("https://x/y").is_err());
}

#[test]
fn parses_tcp_urls() {
    let u = parse_tcp_url("tcp://127.0.0.1:9000").unwrap();
    assert_eq!(u.host, "127.0.0.1");
    assert_eq!(u.port, 9000);
    assert!(parse_tcp_url("tcp://127.0.0.1").is_err());
}

#[test]
fn ipv6_authority() {
    let (h, p) = split_host_port("[::1]:80", 0).unwrap();
    assert_eq!(h, "::1");
    assert_eq!(p, 80);
    let (h, p) = split_host_port("::1", 80).unwrap();
    assert_eq!(h, "::1");
    assert_eq!(p, 80);
}

// Which of these hosts are loopback addresses.
fn loopback_address(host: &str) -> bool {
    host == "127.0.0.1" || host == "::1"
}

#[test]
fn loopback_detection() {
    for h in ["localhost", "127.0.0.1", "::1"] {
        assert!(is_loopback(h, loopback_address(h)));
    }
    for h in ["example.com", "8.8.8.8"] {
        assert!(!is_loopback(h, loopback_address(h)));
    }
}

#[test]
fn capability_loopback_ok_remote_denied() {
    assert!(check_capability("127.0.0.1", 80, loopback_address("127.0.0.1"), &None).is_ok());
    let err = check_capability("example.com", 443, loopback_address("example.com"), &None)
        .unwrap_err();
    assert!(err.contains("example.com:443"));
}

#[test]
fn an_allowlist_lets_a_host_in() {
    let list = Some("other.org, example.com:443".to_string());
    assert!(check_capability("example.com", 443, false, &list).is_ok());
    assert!(check_capability("example.com", 80, false, &list).is_err());
    assert!(check_capability("other.org", 80, false, &list).is_ok());
}

#[test]
fn a_request_names_its_host() {
    let u = parse_http_url("http://h:81/p?q").unwrap();
    let t = request_text(&u, "1.0");
    assert!(t.starts_with("GET /p?q HTTP/1.1\r\n"));
    assert!(t.contains("Host: h:81\r\n"));
    assert!(t.ends_with("\r\n\r\n"));
}

#[test]
fn response_heads_are_read() {
    assert_eq!(status_of("HTTP/1.1 404 Not Found"), Some(404));
    assert_eq!(status_of("nonsense"), None);
    assert!(matches!(header_line("\r\n"), HeaderLine::End));
    let h = parse_headers(&vec![
        "Location: /next\r\n".to_string(),
        "Content-Length: 5\r\n".to_string(),
    ]);
    assert_eq!(header_value(&h, "content-length"), Some("5".to_string()));
    assert_eq!(header_value(&h, "x"), None);
    assert!(matches!(http_body(&h), BodyMode::Length(5)));
}

#[test]
fn redirects_are_followed() {
    let u = parse_http_url("http://h/a").unwrap();
    assert_eq!(resolve_redirect(&u, "http://o/b"), "http://o/b");
    assert_eq!(resolve_redirect(&u, "/b"), "http://h/b");
    let h = parse_headers(&vec!["Location: /b".to_string()]);
    match on_response("http://h/a", &u, 302, &h) {
        Reply::Redirect(t) => assert_eq!(t, "http://h/b"),
        other => panic!("not a redirect: {:?}", other),
    }
    assert!(matches!(on_response("http://h/a", &u, 200, &h), Reply::Body));
    assert!(matches!(on_response("http://h/a", &u, 500, &h), Reply::Fail(_)));
    assert!(too_many_redirects("http://h/a").contains("http://h/a"));
}

#[test]
fn a_chunked_body_is_read_in_pieces() {
    assert_eq!(size_of_chunk("1a;ext"), Some(26));
    assert_eq!(size_of_chunk("q"), None);
    let h = parse_headers(&vec!["Transfer-Encoding: chunked".to_string()]);
    let mut m = http_body(&h);
    assert!(matches!(m.plan(10), NextRead::SizeLine));
    assert!(matches!(m.size_line(Some("4")), AfterSize::Data));
    assert!(matches!(m.plan(10), NextRead::Bytes(4)));
    assert!(m.took(4, 10));
    assert!(matches!(m.plan(10), NextRead::SizeLine));
    assert!(matches!(m.size_line(Some("0")), AfterSize::Trailer));
    assert!(matches!(m.plan(10), NextRead::End));
}

#[test]
fn a_redirect_keeps_the_brackets_of_an_address() {
    let u = parse_http_url("http://[::1]:8080/a").unwrap();
    assert_eq!(resolve_redirect(&u, "/p"), "http://[::1]:8080/p");
    let back = parse_http_url(&resolve_redirect(&u, "/p")).unwrap();
    assert_eq!((back.host.as_str(), back.port), ("::1", 8080));
}

#[test]
fn both_forms_of_the_data_hold_the_same_records() {
    let (csv, json) = (clean(30, 9), jsonl_clean(30, 9));
    let mut lines = csv.lines();
    lines.next();
    for (c, j) in lines.zip(json.lines()) {
        let f: Vec<&str> = c.split(',').collect();
        let want = format!(
            "{{\"id\":{},\"name\":\"{}\",\"age\":{},\"score\":{},\"country\":\"{}\",\"active\":{}}}",
            f[0], f[1], f[2], f[3], f[4], f[5]
        );
        assert_eq!(j, want);
    }
    assert_eq!(json.matches('\n').count(), 30);
    assert!(json.ends_with('\n'));
}

#[test]
fn fewer_rows_are_a_prefix_of_more() {
    assert!(clean(30, 9).starts_with(&clean(11, 9)));
    assert!(jsonl_clean(30, 9).starts_with(&jsonl_clean(11, 9)));
    assert!(error_heavy(30, 400_000, 9).starts_with(&error_heavy(11, 400_000, 9)));
    assert!(mixed_types(30, 400_000, 9).starts_with(&mixed_types(11, 400_000, 9)));
    assert_eq!(jsonl_clean(0, 9), "");
}
