use mockito::matcher::Matcher;
use mockito::mock::RemoteMock;
use mockito::request::Request;
use mockito::try_start;

fn bv(s: &str) -> Vec<u8> {
    s.as_bytes().to_vec()
}

fn base_mock() -> RemoteMock {
    RemoteMock {
        id: bv("m"),
        method: bv("GET"),
        path: Matcher::Exact(bv("/x")),
        headers: vec![],
        body: Matcher::Exact(bv("")),
        response: mockito::mock::MockResponse {
            status: bv("200 OK"),
            headers: vec![],
            body: bv(""),
        },
        hits: 0,
        expected_hits: 0,
    }
}

fn get_x(body: &str) -> Request {
    Request { method: bv("GET"), path: bv("/x"), headers: vec![], body: bv(body) }
}

#[test]
fn exact_matcher_compares_literally() {
    let m = Matcher::Exact(bv("alpha"));
    assert!(m.satisfied_by(Some(&bv("alpha"))));
    assert!(!m.satisfied_by(Some(&bv("Alpha"))));
    assert!(!m.satisfied_by(Some(&bv("alpha "))));
    assert!(!m.satisfied_by(None));
}

#[test]
fn regex_matcher_requires_a_full_match() {
    let m = Matcher::Regexp(bv("w.*d"));
    assert!(m.satisfied_by(Some(&bv("world"))));
    assert!(m.satisfied_by(Some(&bv("wd"))));
    // A bare search would find `worl` + `d` inside, but the whole value must
    // match.
    assert!(!m.satisfied_by(Some(&bv("hello world"))));
    assert!(!m.satisfied_by(Some(&bv("worlds!"))));
    assert!(!m.satisfied_by(None));
    // An alternation is confined by the anchoring.
    let m = Matcher::Regexp(bv("a|b"));
    assert!(m.satisfied_by(Some(&bv("a"))));
    assert!(!m.satisfied_by(Some(&bv("ab"))));
}

#[test]
fn invalid_pattern_never_matches() {
    let m = Matcher::Regexp(bv("("));
    assert!(!m.satisfied_by(Some(&bv("("))));
    assert!(!m.pattern_valid());
    assert!(Matcher::Regexp(bv("[0-9]+")).pattern_valid());
    assert!(Matcher::Exact(bv("(")).pattern_valid());
    assert!(Matcher::Missing.pattern_valid());
}

#[test]
fn method_comparison_is_case_sensitive() {
    let m = base_mock();
    let mut r = get_x("");
    assert!(m.mock_matches(&r));
    r.method = bv("get");
    assert!(!m.mock_matches(&r));
}

#[test]
fn path_includes_the_query_component() {
    let mut m = base_mock();
    m.path = Matcher::Exact(bv("/x?n=1"));
    let mut r = get_x("");
    assert!(!m.mock_matches(&r));
    r.path = bv("/x?n=1");
    assert!(m.mock_matches(&r));
}

#[test]
fn body_is_compared_after_lossy_decoding() {
    let mut m = base_mock();
    // The UTF-8 replacement character, as the lossy decoding of 0xFF.
    m.body = Matcher::Exact("\u{FFFD}".as_bytes().to_vec());
    let mut r = get_x("");
    r.body = vec![0xFF];
    assert!(m.mock_matches(&r));
    // A valid UTF-8 body decodes to itself.
    let mut m2 = base_mock();
    m2.body = Matcher::Exact(bv("plain"));
    let mut r2 = get_x("");
    r2.body = bv("plain");
    assert!(m2.mock_matches(&r2));
}

#[test]
fn duplicate_header_expectations_must_all_hold() {
    let mut m = base_mock();
    m.headers = vec![
        (bv("accept"), Matcher::Regexp(bv("text/.*"))),
        (bv("accept"), Matcher::Exact(bv("text/plain"))),
    ];
    let mut r = get_x("");
    r.headers = vec![(bv("accept"), bv("text/plain"))];
    assert!(m.mock_matches(&r));
    r.headers = vec![(bv("accept"), bv("text/html"))];
    assert!(!m.mock_matches(&r));
}

#[test]
fn try_start_is_idempotent() {
    assert!(try_start(false));
    assert!(!try_start(true));
}
