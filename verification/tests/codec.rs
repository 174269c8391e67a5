use mockito::json::{parse_mock, serialize_mock};
use mockito::matcher::Matcher;
use mockito::mock::{MockResponse, RemoteMock};

fn bv(s: &str) -> Vec<u8> {
    s.as_bytes().to_vec()
}

fn sample_mock() -> RemoteMock {
    RemoteMock {
        id: bv("sample_1"),
        method: bv("POST"),
        path: Matcher::Regexp(bv("/api/v[0-9]+/items")),
        headers: vec![
            (bv("content-type"), Matcher::Exact(bv("application/json"))),
            (bv("x-debug"), Matcher::Missing),
            (bv("x-trace"), Matcher::Regexp(bv("[a-f0-9]+"))),
        ],
        body: Matcher::Exact(bv("{\"a\":1}")),
        response: MockResponse {
            status: bv("201 Created"),
            headers: vec![(bv("x-served-by"), bv("tests")), (bv("connection"), bv("close"))],
            body: bv("created\r\nwith lines"),
        },
        hits: 3,
        expected_hits: 7,
    }
}

#[test]
fn serialized_mock_parses_back_to_the_same_mock() {
    let m = sample_mock();
    let bytes = serialize_mock(&m);
    let back = parse_mock(bytes.as_slice()).expect("the writer's record must parse");
    let again = serialize_mock(&back);
    assert_eq!(bytes, again);
    assert_eq!(back.id, m.id);
    assert_eq!(back.method, m.method);
    assert_eq!(back.hits, 3);
    assert_eq!(back.expected_hits, 7);
    assert_eq!(back.response.status, bv("201 Created"));
    assert_eq!(back.response.body, bv("created\r\nwith lines"));
}

#[test]
fn serialization_escapes_and_restores_special_bytes() {
    let mut m = sample_mock();
    m.id = bv("q\"b\\c\ttab");
    m.response.body = vec![0u8, 1, 34, 92, 13, 10, 200, 255];
    let bytes = serialize_mock(&m);
    let text = String::from_utf8_lossy(&bytes).into_owned();
    assert!(text.contains("q\\u0022b\\u005cc\\u0009tab"));
    let back = parse_mock(bytes.as_slice()).expect("escaped record must parse");
    assert_eq!(back.id, m.id);
    assert_eq!(back.response.body, m.response.body);
}

#[test]
fn exact_record_text_is_stable() {
    let m = RemoteMock {
        id: bv("a"),
        method: bv("GET"),
        path: Matcher::Exact(bv("/x")),
        headers: vec![],
        body: Matcher::Missing,
        response: MockResponse { status: bv("200 OK"), headers: vec![], body: bv("hi") },
        hits: 0,
        expected_hits: 12,
    };
    let bytes = serialize_mock(&m);
    assert_eq!(
        String::from_utf8(bytes).unwrap(),
        "{\"id\":\"a\",\"method\":\"GET\",\"path\":\"/x\",\"headers\":[],\"body\":{\"missing\":true},\"response\":{\"status\":\"200 OK\",\"headers\":[],\"body\":\"hi\"},\"hits\":0,\"expected_hits\":12}"
    );
}

#[test]
fn parser_rejects_what_the_writer_never_emits() {
    // Well-formed JSON, wrong shape or laxities the strict reader refuses.
    let cases: &[&str] = &[
        "",
        "{}",
        "null",
        "{\"id\":\"a\"}",
        // Spaces.
        "{\"id\": \"a\",\"method\":\"GET\",\"path\":\"/x\",\"headers\":[],\"body\":\"\",\"response\":{\"status\":\"200 OK\",\"headers\":[],\"body\":\"\"},\"hits\":0,\"expected_hits\":0}",
        // Leading zero in a number.
        "{\"id\":\"a\",\"method\":\"GET\",\"path\":\"/x\",\"headers\":[],\"body\":\"\",\"response\":{\"status\":\"200 OK\",\"headers\":[],\"body\":\"\"},\"hits\":01,\"expected_hits\":0}",
        // Trailing garbage.
        "{\"id\":\"a\",\"method\":\"GET\",\"path\":\"/x\",\"headers\":[],\"body\":\"\",\"response\":{\"status\":\"200 OK\",\"headers\":[],\"body\":\"\"},\"hits\":0,\"expected_hits\":0}x",
    ];
    for c in cases {
        assert!(parse_mock(c.as_bytes()).is_none(), "must reject: {}", c);
    }
}

#[test]
fn parser_accepts_a_handwritten_record() {
    let text = "{\"id\":\"h1\",\"method\":\"PUT\",\"path\":{\"regex\":\"/it/[0-9]+\"},\"headers\":[[\"a\",\"1\"],[\"b\",{\"missing\":true}]],\"body\":\"\",\"response\":{\"status\":\"204 No Content\",\"headers\":[[\"k\",\"v\"]],\"body\":\"\"},\"hits\":10,\"expected_hits\":0}";
    let m = parse_mock(text.as_bytes()).expect("handwritten record must parse");
    assert_eq!(m.id, bv("h1"));
    assert_eq!(m.hits, 10);
    assert_eq!(m.headers.len(), 2);
    let again = serialize_mock(&m);
    assert_eq!(String::from_utf8(again).unwrap(), text);
}
