use mockito::matcher::Matcher;
use mockito::mock::RemoteMock;
use mockito::request::Request;
use mockito::response::ApiResponse;
use mockito::server::{handle_request, State};

fn bv(s: &str) -> Vec<u8> {
    s.as_bytes().to_vec()
}

fn req(method: &str, path: &str, headers: &[(&str, &str)], body: &str) -> Request {
    Request {
        method: bv(method),
        path: bv(path),
        headers: headers.iter().map(|(k, v)| (bv(k), bv(v))).collect(),
        body: bv(body),
    }
}

fn mock_json(id: &str, method: &str, path: &str, resp_body: &str) -> String {
    format!(
        "{{\"id\":\"{}\",\"method\":\"{}\",\"path\":\"{}\",\"headers\":[],\"body\":{{\"missing\":true}},\"response\":{{\"status\":\"200 OK\",\"headers\":[],\"body\":\"{}\"}},\"hits\":0,\"expected_hits\":0}}",
        id, method, path, resp_body
    )
}

fn register(state: &mut State, json: &str) -> ApiResponse {
    handle_request(state, req("POST", "/mockito/mocks", &[], json))
}

#[test]
fn registered_mock_answers_and_counts_hits() {
    let mut state = State::default();
    let r = register(&mut state, &mock_json("m1", "GET", "/greet", "hello"));
    assert_eq!(r.status, bv("200 OK"));
    assert!(r.body.is_empty());

    // A matching stimulus gets the canned response. The mock declares no
    // headers and a missing body, so the stimulus must carry an empty body.
    let stimulus = req("GET", "/greet", &[("x-extra", "ignored")], "");
    // An empty body decodes to an empty string, which `Missing` rejects; the
    // registered mock's body matcher is Missing, so this must NOT match.
    let r = handle_request(&mut state, stimulus);
    assert_eq!(r.status, bv("501 Not Implemented"));

    // Register a mock whose body matcher is the empty exact string instead.
    let json = mock_json("m2", "GET", "/greet", "hello").replace("{\"missing\":true}", "\"\"");
    let r = register(&mut state, &json);
    assert_eq!(r.status, bv("200 OK"));

    let r = handle_request(&mut state, req("GET", "/greet", &[], ""));
    assert_eq!(r.status, bv("200 OK"));
    assert_eq!(r.body, bv("hello"));
    assert_eq!(r.headers[0].0, bv("content-length"));
    assert_eq!(r.headers[0].1, bv("5"));

    // The hit shows up in the fetched record, exactly once.
    let r = handle_request(&mut state, req("GET", "/mockito/mocks/m2", &[], ""));
    assert_eq!(r.status, bv("200 OK"));
    let text = String::from_utf8(r.body).unwrap();
    assert!(text.contains("\"hits\":1"));
}

#[test]
fn most_recently_registered_mock_wins() {
    let mut state = State::default();
    let a = mock_json("a", "GET", "/x", "A").replace("{\"missing\":true}", "\"\"");
    let b = mock_json("b", "GET", "/x", "B").replace("{\"missing\":true}", "\"\"");
    assert_eq!(register(&mut state, &a).status, bv("200 OK"));
    assert_eq!(register(&mut state, &b).status, bv("200 OK"));
    let r = handle_request(&mut state, req("GET", "/x", &[], ""));
    assert_eq!(r.body, bv("B"));
}

#[test]
fn unmatched_request_is_501_and_retrievable() {
    let mut state = State::default();
    let r = handle_request(&mut state, req("GET", "/nothing", &[("k", "v")], "payload"));
    assert_eq!(r.status, bv("501 Not Implemented"));
    assert!(r.body.is_empty());
    // Even an empty-bodied answer carries its content-length.
    assert_eq!(r.headers, vec![(bv("content-length"), bv("0"))]);

    let r = handle_request(&mut state, req("GET", "/mockito/last_unmatched_request", &[], ""));
    assert_eq!(r.status, bv("200 OK"));
    assert_eq!(r.body, bv("GET /nothing\r\nk: v\r\n\r\npayload"));
}

#[test]
fn last_unmatched_request_empty_when_none() {
    let mut state = State::default();
    let r = handle_request(&mut state, req("GET", "/mockito/last_unmatched_request", &[], ""));
    assert_eq!(r.status, bv("200 OK"));
    assert!(r.body.is_empty());
}

#[test]
fn missing_header_matcher_requires_absence() {
    let mock = RemoteMock {
        id: bv("m"),
        method: bv("GET"),
        path: Matcher::Exact(bv("/x")),
        headers: vec![(bv("authorization"), Matcher::Missing)],
        body: Matcher::Exact(bv("")),
        response: mockito::mock::MockResponse {
            status: bv("200 OK"),
            headers: vec![],
            body: bv(""),
        },
        hits: 0,
        expected_hits: 0,
    };
    // Absent header: satisfied.
    assert!(mock.mock_matches(&req("GET", "/x", &[], "")));
    // Present with a value: fails.
    assert!(!mock.mock_matches(&req("GET", "/x", &[("authorization", "token")], "")));
    // Present with an empty value: still fails.
    assert!(!mock.mock_matches(&req("GET", "/x", &[("authorization", "")], "")));
    // Lookup is case-insensitive.
    assert!(!mock.mock_matches(&req("GET", "/x", &[("Authorization", "x")], "")));
}

#[test]
fn delete_one_mock_keeps_the_others() {
    let mut state = State::default();
    let a = mock_json("a", "GET", "/a", "A").replace("{\"missing\":true}", "\"\"");
    let b = mock_json("b", "GET", "/b", "B").replace("{\"missing\":true}", "\"\"");
    register(&mut state, &a);
    register(&mut state, &b);

    let r = handle_request(&mut state, req("DELETE", "/mockito/mocks/a", &[], ""));
    assert_eq!(r.status, bv("200 OK"));

    let r = handle_request(&mut state, req("GET", "/mockito/mocks/a", &[], ""));
    assert_eq!(r.status, bv("404 Not Found"));
    assert!(r.body.is_empty());

    let r = handle_request(&mut state, req("GET", "/b", &[], ""));
    assert_eq!(r.status, bv("200 OK"));
    assert_eq!(r.body, bv("B"));

    let r = handle_request(&mut state, req("DELETE", "/mockito/mocks/a", &[], ""));
    assert_eq!(r.status, bv("404 Not Found"));
}

#[test]
fn delete_all_mocks_empties_the_registry() {
    let mut state = State::default();
    let a = mock_json("a", "GET", "/a", "A").replace("{\"missing\":true}", "\"\"");
    register(&mut state, &a);
    let r = handle_request(&mut state, req("GET", "/a", &[], ""));
    assert_eq!(r.status, bv("200 OK"));

    let r = handle_request(&mut state, req("DELETE", "/mockito/mocks", &[], ""));
    assert_eq!(r.status, bv("200 OK"));

    let r = handle_request(&mut state, req("GET", "/a", &[], ""));
    assert_eq!(r.status, bv("501 Not Implemented"));
}

#[test]
fn fetched_record_reregisters_identically() {
    let mut state = State::default();
    let a = mock_json("rt", "GET", "/rt", "round").replace("{\"missing\":true}", "\"\"");
    register(&mut state, &a);

    let fetched = handle_request(&mut state, req("GET", "/mockito/mocks/rt", &[], ""));
    assert_eq!(fetched.status, bv("200 OK"));
    let record = String::from_utf8(fetched.body).unwrap();

    // A fresh registry, fed the fetched record, answers the same stimulus
    // with the byte-identical canned response.
    let mut state2 = State::default();
    let r = register(&mut state2, &record);
    assert_eq!(r.status, bv("200 OK"));

    let r1 = handle_request(&mut state, req("GET", "/rt", &[], ""));
    let r2 = handle_request(&mut state2, req("GET", "/rt", &[], ""));
    assert_eq!(r1.status, r2.status);
    assert_eq!(r1.headers, r2.headers);
    assert_eq!(r1.body, r2.body);

    // And fetching it back yields the very same record.
    let fetched2 = handle_request(&mut state2, req("GET", "/mockito/mocks/rt", &[], ""));
    let record2 = String::from_utf8(fetched2.body).unwrap();
    // One hit was counted meanwhile in each registry.
    assert_eq!(record.replace("\"hits\":0", "\"hits\":1"), record2);
}

#[test]
fn malformed_record_is_422_and_changes_nothing() {
    let mut state = State::default();
    let a = mock_json("keep", "GET", "/keep", "K").replace("{\"missing\":true}", "\"\"");
    register(&mut state, &a);

    let r = register(&mut state, "{\"id\":oops");
    assert_eq!(r.status, bv("422 Unprocessable Entity"));
    assert_eq!(r.body, bv("the body is not a mock record"));

    // The registry still holds exactly the earlier mock.
    let r = handle_request(&mut state, req("GET", "/keep", &[], ""));
    assert_eq!(r.status, bv("200 OK"));
    assert_eq!(r.body, bv("K"));
    let r = handle_request(&mut state, req("GET", "/mockito/mocks/keep", &[], ""));
    let text = String::from_utf8(r.body).unwrap();
    assert!(text.contains("\"hits\":1"));
}

#[test]
fn invalid_pattern_is_rejected_at_registration() {
    let mut state = State::default();
    let json = mock_json("bad", "GET", "/p", "x")
        .replace("\"path\":\"/p\"", "\"path\":{\"regex\":\"(\"}");
    let r = register(&mut state, &json);
    assert_eq!(r.status, bv("422 Unprocessable Entity"));
    assert_eq!(r.body, bv("a pattern in the mock does not compile"));
    let r = handle_request(&mut state, req("GET", "/mockito/mocks/bad", &[], ""));
    assert_eq!(r.status, bv("404 Not Found"));
}
