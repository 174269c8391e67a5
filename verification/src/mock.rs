//! The `RemoteMock` type: a registered expectation with its canned response
//! and hit counter, and the four predicates that decide whether a request
//! satisfies it.

use vstd::prelude::*;

use crate::bytes::{bytes_eq, to_vec};
use crate::matcher::{matcher_matches, matcher_pattern_valid, Matcher, MatcherModel};
use crate::request::{headers_view, spec_find_header, Request, RequestModel};

verus! {

/// The mathematical model of a canned response.
pub struct ResponseModel {
    pub status: Seq<u8>,
    pub headers: Seq<(Seq<u8>, Seq<u8>)>,
    pub body: Seq<u8>,
}

/// The canned response a mock replays: a status line tail (for instance
/// `200 OK`), header pairs in declared order, and the raw body.
pub struct MockResponse {
    pub status: Vec<u8>,
    pub headers: Vec<(Vec<u8>, Vec<u8>)>,
    pub body: Vec<u8>,
}

impl View for MockResponse {
    type V = ResponseModel;

    open spec fn view(&self) -> ResponseModel {
        ResponseModel {
            status: self.status@,
            headers: headers_view(self.headers@),
            body: self.body@,
        }
    }
}

/// The mathematical model of a registered mock.
pub struct MockModel {
    pub id: Seq<u8>,
    pub method: Seq<u8>,
    pub path: MatcherModel,
    pub headers: Seq<(Seq<u8>, MatcherModel)>,
    pub body: MatcherModel,
    pub response: ResponseModel,
    pub hits: usize,
    pub expected_hits: usize,
}

/// A registered expectation: matching criteria, the canned response, and the
/// hit counter that successful matches bump. `expected_hits` is advisory
/// metadata stored and returned, never enforced.
pub struct RemoteMock {
    pub id: Vec<u8>,
    pub method: Vec<u8>,
    pub path: Matcher,
    pub headers: Vec<(Vec<u8>, Matcher)>,
    pub body: Matcher,
    pub response: MockResponse,
    pub hits: usize,
    pub expected_hits: usize,
}

/// The view of a list of header expectations.
pub open spec fn mock_headers_view(hs: Seq<(Vec<u8>, Matcher)>) -> Seq<(Seq<u8>, MatcherModel)> {
    hs.map_values(|p: (Vec<u8>, Matcher)| (p.0@, p.1@))
}

impl View for RemoteMock {
    type V = MockModel;

    open spec fn view(&self) -> MockModel {
        MockModel {
            id: self.id@,
            method: self.method@,
            path: self.path@,
            headers: mock_headers_view(self.headers@),
            body: self.body@,
            response: self.response@,
            hits: self.hits,
            expected_hits: self.expected_hits,
        }
    }
}

/// The request body as the text that UTF-8 decoding with lossy replacement
/// of invalid sequences yields, given back as its UTF-8 bytes.
pub uninterp spec fn lossy_of(b: Seq<u8>) -> Seq<u8>;

/// Relies on `String::from_utf8_lossy`: the decoded text is a function of
/// the input bytes alone, and no input decodes to anything but itself when
/// there is nothing to decode: an empty input yields the empty string.
#[verifier::external_body]
fn utf8_lossy(b: &[u8]) -> (r: Vec<u8>)
    ensures
        r@ == lossy_of(b@),
        b@.len() == 0 ==> r@.len() == 0,
{
    String::from_utf8_lossy(b).into_owned().into_bytes()
}

/// Exact, case-sensitive equality of methods.
pub open spec fn spec_method_matches(m: MockModel, r: RequestModel) -> bool {
    m.method == r.method
}

/// The path matcher against the request path, query component included.
pub open spec fn spec_path_matches(m: MockModel, r: RequestModel) -> bool {
    matcher_matches(m.path, Some(r.path))
}

/// Every declared header expectation holds: a found header value must
/// satisfy its matcher; a header absent from the request satisfies only
/// `Missing`. Headers the mock does not declare are ignored.
pub open spec fn spec_headers_match(m: MockModel, r: RequestModel) -> bool {
    forall|i: int|
        0 <= i < m.headers.len() ==> matcher_matches(
            (#[trigger] m.headers[i]).1,
            spec_find_header(r.headers, m.headers[i].0),
        )
}

/// The body matcher against the request body decoded as UTF-8 with lossy
/// replacement.
pub open spec fn spec_body_matches(m: MockModel, r: RequestModel) -> bool {
    matcher_matches(m.body, Some(lossy_of(r.body)))
}

/// A mock satisfies a request exactly when all four predicates hold.
pub open spec fn spec_mock_matches(m: MockModel, r: RequestModel) -> bool {
    spec_method_matches(m, r) && spec_path_matches(m, r) && spec_headers_match(m, r)
        && spec_body_matches(m, r)
}

/// All patterns a mock carries compile: the path matcher, every header
/// matcher, and the body matcher.
pub open spec fn spec_mock_patterns_valid(m: MockModel) -> bool {
    matcher_pattern_valid(m.path) && matcher_pattern_valid(m.body) && forall|i: int|
        0 <= i < m.headers.len() ==> matcher_pattern_valid((#[trigger] m.headers[i]).1)
}

impl RemoteMock {
    /// Exact, case-sensitive method equality.
    pub fn method_matches(&self, request: &Request) -> (r: bool)
        ensures
            r == spec_method_matches(self@, request@),
    {
        bytes_eq(self.method.as_slice(), request.method.as_slice())
    }

    /// The path matcher against the request path.
    pub fn path_matches(&self, request: &Request) -> (r: bool)
        ensures
            r == spec_path_matches(self@, request@),
    {
        self.path.satisfied_by(Some(&request.path))
    }

    /// Every declared header expectation against the request's headers.
    pub fn headers_match(&self, request: &Request) -> (r: bool)
        ensures
            r == spec_headers_match(self@, request@),
    {
        let ghost hs = self@.headers;
        let mut i: usize = 0;
        while i < self.headers.len()
            invariant
                0 <= i <= self.headers.len(),
                hs == mock_headers_view(self.headers@),
                hs.len() == self.headers@.len(),
                forall|j: int|
                    0 <= j < i ==> matcher_matches(
                        (#[trigger] hs[j]).1,
                        spec_find_header(request@.headers, hs[j].0),
                    ),
            decreases self.headers.len() - i,
        {
            let pair = &self.headers[i];
            let found = request.find_header(pair.0.as_slice());
            if !pair.1.satisfied_by(found) {
                assert(!matcher_matches(hs[i as int].1, spec_find_header(
                    request@.headers,
                    hs[i as int].0,
                )));
                return false;
            }
            i = i + 1;
        }
        true
    }

    /// The body matcher against the lossily decoded request body.
    pub fn body_matches(&self, request: &Request) -> (r: bool)
        ensures
            r == spec_body_matches(self@, request@),
    {
        let decoded = utf8_lossy(request.body.as_slice());
        self.body.satisfied_by(Some(&decoded))
    }

    /// The conjunction of the four predicates: whether this mock satisfies
    /// the request.
    pub fn mock_matches(&self, request: &Request) -> (r: bool)
        ensures
            r == spec_mock_matches(self@, request@),
    {
        self.method_matches(request) && self.path_matches(request) && self.headers_match(request)
            && self.body_matches(request)
    }

    /// Checks that every pattern the mock carries compiles.
    pub fn patterns_valid(&self) -> (r: bool)
        ensures
            r == spec_mock_patterns_valid(self@),
    {
        let ghost hs = self@.headers;
        if !self.path.pattern_valid() {
            return false;
        }
        if !self.body.pattern_valid() {
            return false;
        }
        let mut i: usize = 0;
        while i < self.headers.len()
            invariant
                0 <= i <= self.headers.len(),
                hs == mock_headers_view(self.headers@),
                hs.len() == self.headers@.len(),
                matcher_pattern_valid(self@.path),
                matcher_pattern_valid(self@.body),
                forall|j: int| 0 <= j < i ==> matcher_pattern_valid((#[trigger] hs[j]).1),
            decreases self.headers.len() - i,
        {
            if !self.headers[i].1.pattern_valid() {
                proof {
                    assert(hs[i as int] == (self.headers@[i as int].0@, self.headers@[
                        i as int
                    ].1@));
                    assert(!matcher_pattern_valid((self@.headers[i as int]).1));
                    assert(!spec_mock_patterns_valid(self@));
                }
                return false;
            }
            i = i + 1;
        }
        true
    }

    /// A structural copy of the canned response.
    pub fn response_copy(&self) -> (r: MockResponse)
        ensures
            r@ == self@.response,
    {
        let mut headers: Vec<(Vec<u8>, Vec<u8>)> = Vec::new();
        let mut i: usize = 0;
        while i < self.response.headers.len()
            invariant
                0 <= i <= self.response.headers.len(),
                headers@.len() == i,
                forall|j: int|
                    0 <= j < i ==> (#[trigger] headers@[j]).0@ == self.response.headers@[j].0@
                        && headers@[j].1@ == self.response.headers@[j].1@,
            decreases self.response.headers.len() - i,
        {
            let name = to_vec(self.response.headers[i].0.as_slice());
            let value = to_vec(self.response.headers[i].1.as_slice());
            headers.push((name, value));
            i = i + 1;
        }
        assert(headers_view(headers@) =~= headers_view(self.response.headers@));
        let r = MockResponse {
            status: to_vec(self.response.status.as_slice()),
            headers,
            body: to_vec(self.response.body.as_slice()),
        };
        assert(r@.headers =~= self@.response.headers);
        r
    }
}

} // verus!
