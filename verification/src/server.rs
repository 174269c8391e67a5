//! The registry of live mocks and the dispatcher: administrative routes for
//! creating, fetching and deleting mocks, and the fallback matching protocol
//! that replays the most recently registered matching mock.

use vstd::prelude::*;

use crate::bytes::{bytes_eq, is_word, spec_is_word, spec_starts_with, starts_with, suffix_from};
use crate::json::{parse_mock, ser_mock, serialize_mock};
use crate::mock::{spec_mock_matches, spec_mock_patterns_valid, MockModel, RemoteMock};
use crate::request::{spec_render_request, render_request, Request, RequestModel};
use crate::response::{
    make_from_mock, make_not_found, make_not_implemented, make_ok_body, make_ok_empty,
    make_unprocessable, resp_from_mock, resp_not_found, resp_not_implemented, resp_ok_body,
    resp_ok_empty, resp_unprocessable, status_ok, status_unprocessable, ApiResponse,
    ApiResponseModel,
};

verus! {

/// The mathematical model of the registry.
pub struct StateModel {
    pub mocks: Seq<MockModel>,
    pub unmatched_requests: Seq<RequestModel>,
}

/// The registry: live mocks in insertion order, and the append-only log of
/// requests that matched nothing.
pub struct State {
    pub mocks: Vec<RemoteMock>,
    pub unmatched_requests: Vec<Request>,
}

/// The view of a mock list.
pub open spec fn mocks_view(ms: Seq<RemoteMock>) -> Seq<MockModel> {
    ms.map_values(|m: RemoteMock| m@)
}

/// The view of a request list.
pub open spec fn requests_view(rs: Seq<Request>) -> Seq<RequestModel> {
    rs.map_values(|r: Request| r@)
}

impl View for State {
    type V = StateModel;

    open spec fn view(&self) -> StateModel {
        StateModel {
            mocks: mocks_view(self.mocks@),
            unmatched_requests: requests_view(self.unmatched_requests@),
        }
    }
}

impl Default for State {
    /// The empty registry.
    fn default() -> (s: State)
        ensures
            s@.mocks.len() == 0,
            s@.unmatched_requests.len() == 0,
    {
        State { mocks: Vec::new(), unmatched_requests: Vec::new() }
    }
}

/// The index of the first mock whose id is `id`, scanning front to back.
pub open spec fn spec_first_mock_index(ms: Seq<MockModel>, id: Seq<u8>) -> Option<int>
    decreases ms.len(),
{
    if ms.len() == 0 {
        None
    } else if ms[0].id == id {
        Some(0)
    } else {
        match spec_first_mock_index(ms.skip(1), id) {
            Some(i) => Some(i + 1),
            None => None,
        }
    }
}

/// A found first index is pinned by a witness: a hit at `i` with no hit
/// before it.
pub proof fn lemma_first_index_witness(ms: Seq<MockModel>, id: Seq<u8>, i: int)
    requires
        0 <= i < ms.len(),
        ms[i].id == id,
        forall|j: int| 0 <= j < i ==> (#[trigger] ms[j]).id != id,
    ensures
        spec_first_mock_index(ms, id) == Some(i),
    decreases ms.len(),
{
    if i == 0 {
    } else {
        assert(forall|j: int| 0 <= j < i - 1 ==> (#[trigger] ms.skip(1)[j]).id != id) by {
            assert(forall|j: int| 0 <= j < i - 1 ==> ms.skip(1)[j] == ms[j + 1]);
        }
        lemma_first_index_witness(ms.skip(1), id, i - 1);
    }
}

/// When no mock carries the id, there is no first index.
pub proof fn lemma_first_index_none(ms: Seq<MockModel>, id: Seq<u8>)
    requires
        forall|j: int| 0 <= j < ms.len() ==> (#[trigger] ms[j]).id != id,
    ensures
        spec_first_mock_index(ms, id) is None,
    decreases ms.len(),
{
    if ms.len() > 0 {
        lemma_first_index_none(ms.skip(1), id);
    }
}

/// The found first index lies in range, hits, and nothing before it hits.
pub proof fn lemma_first_index_props(ms: Seq<MockModel>, id: Seq<u8>)
    ensures
        match spec_first_mock_index(ms, id) {
            Some(i) => 0 <= i < ms.len() && ms[i].id == id && forall|j: int|
                0 <= j < i ==> (#[trigger] ms[j]).id != id,
            None => forall|j: int| 0 <= j < ms.len() ==> (#[trigger] ms[j]).id != id,
        },
    decreases ms.len(),
{
    if ms.len() > 0 && ms[0].id != id {
        lemma_first_index_props(ms.skip(1), id);
        assert(forall|j: int| 1 <= j < ms.len() ==> ms[j] == ms.skip(1)[j - 1]);
    }
}

/// The index of the mock the matching protocol picks: the last (most
/// recently registered) mock that satisfies the request.
pub open spec fn spec_match_index(ms: Seq<MockModel>, r: RequestModel) -> Option<int>
    decreases ms.len(),
{
    if ms.len() == 0 {
        None
    } else if spec_mock_matches(ms.last(), r) {
        Some(ms.len() - 1)
    } else {
        spec_match_index(ms.drop_last(), r)
    }
}

/// A match index is pinned by a witness: a match at `i` with no match after
/// it.
pub proof fn lemma_match_index_witness(ms: Seq<MockModel>, r: RequestModel, i: int)
    requires
        0 <= i < ms.len(),
        spec_mock_matches(ms[i], r),
        forall|j: int| i < j < ms.len() ==> !spec_mock_matches(#[trigger] ms[j], r),
    ensures
        spec_match_index(ms, r) == Some(i),
    decreases ms.len(),
{
    if i == ms.len() - 1 {
    } else {
        assert(!spec_mock_matches(ms.last(), r));
        assert(forall|j: int|
            i < j < ms.drop_last().len() ==> !spec_mock_matches(#[trigger] ms.drop_last()[j], r))
            by {
            assert(forall|j: int| 0 <= j < ms.len() - 1 ==> ms.drop_last()[j] == ms[j]);
        }
        lemma_match_index_witness(ms.drop_last(), r, i);
    }
}

/// When no mock matches, the matching protocol finds nothing.
pub proof fn lemma_match_index_none(ms: Seq<MockModel>, r: RequestModel)
    requires
        forall|j: int| 0 <= j < ms.len() ==> !spec_mock_matches(#[trigger] ms[j], r),
    ensures
        spec_match_index(ms, r) is None,
    decreases ms.len(),
{
    if ms.len() > 0 {
        lemma_match_index_none(ms.drop_last(), r);
    }
}

/// The found match index lies in range, matches, and nothing after it
/// matches: the most recently registered satisfied mock wins.
pub proof fn lemma_match_index_props(ms: Seq<MockModel>, r: RequestModel)
    ensures
        match spec_match_index(ms, r) {
            Some(i) => 0 <= i < ms.len() && spec_mock_matches(ms[i], r) && forall|j: int|
                i < j < ms.len() ==> !spec_mock_matches(#[trigger] ms[j], r),
            None => forall|j: int| 0 <= j < ms.len() ==> !spec_mock_matches(#[trigger] ms[j], r),
        },
    decreases ms.len(),
{
    if ms.len() > 0 && !spec_mock_matches(ms.last(), r) {
        lemma_match_index_props(ms.drop_last(), r);
        assert(forall|j: int| 0 <= j < ms.len() - 1 ==> ms.drop_last()[j] == ms[j]);
    }
}

/// Every registered mock carries only patterns that compile.
pub open spec fn state_wf(s: StateModel) -> bool {
    forall|j: int| 0 <= j < s.mocks.len() ==> spec_mock_patterns_valid(#[trigger] s.mocks[j])
}

/// A hit counter after one more satisfied match: one more, held at the
/// machine's ceiling.
pub open spec fn bumped(h: usize) -> usize {
    if h < usize::MAX {
        (h + 1) as usize
    } else {
        h
    }
}

/// A mock after one more satisfied match.
pub open spec fn bump_hits(m: MockModel) -> MockModel {
    MockModel {
        id: m.id,
        method: m.method,
        path: m.path,
        headers: m.headers,
        body: m.body,
        response: m.response,
        hits: bumped(m.hits),
        expected_hits: m.expected_hits,
    }
}

/// The matching protocol's transition: the most recently registered
/// satisfied mock answers with its canned response and counts one hit; when
/// none is satisfied, the request is logged and the answer is the
/// `501 Not Implemented` signal.
pub open spec fn match_step(s: StateModel, r: RequestModel) -> (StateModel, ApiResponseModel) {
    match spec_match_index(s.mocks, r) {
        Some(i) => (
            StateModel {
                mocks: s.mocks.update(i, bump_hits(s.mocks[i])),
                unmatched_requests: s.unmatched_requests,
            },
            resp_from_mock(s.mocks[i].response),
        ),
        None => (
            StateModel { mocks: s.mocks, unmatched_requests: s.unmatched_requests.push(r) },
            resp_not_implemented(),
        ),
    }
}

/// The fetch-by-id answer: the first mock with the id, serialized, or
/// not-found.
pub open spec fn get_mock_resp(s: StateModel, id: Seq<u8>) -> ApiResponseModel {
    match spec_first_mock_index(s.mocks, id) {
        Some(i) => resp_ok_body(ser_mock(s.mocks[i])),
        None => resp_not_found(),
    }
}

/// The delete-by-id transition: the first mock with the id leaves, the
/// survivors keep their order; an unknown id answers not-found and changes
/// nothing.
pub open spec fn delete_mock_step(s: StateModel, id: Seq<u8>) -> (StateModel, ApiResponseModel) {
    match spec_first_mock_index(s.mocks, id) {
        Some(i) => (
            StateModel { mocks: s.mocks.remove(i), unmatched_requests: s.unmatched_requests },
            resp_ok_empty(),
        ),
        None => (s, resp_not_found()),
    }
}

/// The last-unmatched-request answer: the most recently logged unmatched
/// request rendered, or an empty body when none was logged yet.
pub open spec fn last_unmatched_resp(s: StateModel) -> ApiResponseModel {
    if s.unmatched_requests.len() == 0 {
        resp_ok_body(Seq::empty())
    } else {
        resp_ok_body(spec_render_request(s.unmatched_requests.last()))
    }
}

/// The byte string `GET`.
pub open spec fn method_get() -> Seq<u8> {
    seq![
        'G' as u8,
        'E' as u8,
        'T' as u8,
    ]
}

/// Builds `method_get` as bytes.
pub fn method_get_bytes() -> (r: Vec<u8>)
    ensures
        r@ == method_get(),
{
    let mut v: Vec<u8> = Vec::new();
    v.push('G' as u8);
    v.push('E' as u8);
    v.push('T' as u8);
    assert(v@ =~= method_get());
    v
}

/// The byte string `POST`.
pub open spec fn method_post() -> Seq<u8> {
    seq![
        'P' as u8,
        'O' as u8,
        'S' as u8,
        'T' as u8,
    ]
}

/// Builds `method_post` as bytes.
pub fn method_post_bytes() -> (r: Vec<u8>)
    ensures
        r@ == method_post(),
{
    let mut v: Vec<u8> = Vec::new();
    v.push('P' as u8);
    v.push('O' as u8);
    v.push('S' as u8);
    v.push('T' as u8);
    assert(v@ =~= method_post());
    v
}

/// The byte string `DELETE`.
pub open spec fn method_delete() -> Seq<u8> {
    seq![
        'D' as u8,
        'E' as u8,
        'L' as u8,
        'E' as u8,
        'T' as u8,
        'E' as u8,
    ]
}

/// Builds `method_delete` as bytes.
pub fn method_delete_bytes() -> (r: Vec<u8>)
    ensures
        r@ == method_delete(),
{
    let mut v: Vec<u8> = Vec::new();
    v.push('D' as u8);
    v.push('E' as u8);
    v.push('L' as u8);
    v.push('E' as u8);
    v.push('T' as u8);
    v.push('E' as u8);
    assert(v@ =~= method_delete());
    v
}

/// The byte string `/mockito/mocks`.
pub open spec fn route_mocks() -> Seq<u8> {
    seq![
        '/' as u8,
        'm' as u8,
        'o' as u8,
        'c' as u8,
        'k' as u8,
        'i' as u8,
        't' as u8,
        'o' as u8,
        '/' as u8,
        'm' as u8,
        'o' as u8,
        'c' as u8,
        'k' as u8,
        's' as u8,
    ]
}

/// Builds `route_mocks` as bytes.
pub fn route_mocks_bytes() -> (r: Vec<u8>)
    ensures
        r@ == route_mocks(),
{
    let mut v: Vec<u8> = Vec::new();
    v.push('/' as u8);
    v.push('m' as u8);
    v.push('o' as u8);
    v.push('c' as u8);
    v.push('k' as u8);
    v.push('i' as u8);
    v.push('t' as u8);
    v.push('o' as u8);
    v.push('/' as u8);
    v.push('m' as u8);
    v.push('o' as u8);
    v.push('c' as u8);
    v.push('k' as u8);
    v.push('s' as u8);
    assert(v@ =~= route_mocks());
    v
}

/// The byte string `/mockito/mocks/`.
pub open spec fn route_mock_prefix() -> Seq<u8> {
    seq![
        '/' as u8,
        'm' as u8,
        'o' as u8,
        'c' as u8,
        'k' as u8,
        'i' as u8,
        't' as u8,
        'o' as u8,
        '/' as u8,
        'm' as u8,
        'o' as u8,
        'c' as u8,
        'k' as u8,
        's' as u8,
        '/' as u8,
    ]
}

/// Builds `route_mock_prefix` as bytes.
pub fn route_mock_prefix_bytes() -> (r: Vec<u8>)
    ensures
        r@ == route_mock_prefix(),
{
    let mut v: Vec<u8> = Vec::new();
    v.push('/' as u8);
    v.push('m' as u8);
    v.push('o' as u8);
    v.push('c' as u8);
    v.push('k' as u8);
    v.push('i' as u8);
    v.push('t' as u8);
    v.push('o' as u8);
    v.push('/' as u8);
    v.push('m' as u8);
    v.push('o' as u8);
    v.push('c' as u8);
    v.push('k' as u8);
    v.push('s' as u8);
    v.push('/' as u8);
    assert(v@ =~= route_mock_prefix());
    v
}

/// The byte string `/mockito/last_unmatched_request`.
pub open spec fn route_last() -> Seq<u8> {
    seq![
        '/' as u8,
        'm' as u8,
        'o' as u8,
        'c' as u8,
        'k' as u8,
        'i' as u8,
        't' as u8,
        'o' as u8,
        '/' as u8,
        'l' as u8,
        'a' as u8,
        's' as u8,
        't' as u8,
        '_' as u8,
        'u' as u8,
        'n' as u8,
        'm' as u8,
        'a' as u8,
        't' as u8,
        'c' as u8,
        'h' as u8,
        'e' as u8,
        'd' as u8,
        '_' as u8,
        'r' as u8,
        'e' as u8,
        'q' as u8,
        'u' as u8,
        'e' as u8,
        's' as u8,
        't' as u8,
    ]
}

/// Builds `route_last` as bytes.
pub fn route_last_bytes() -> (r: Vec<u8>)
    ensures
        r@ == route_last(),
{
    let mut v: Vec<u8> = Vec::new();
    v.push('/' as u8);
    v.push('m' as u8);
    v.push('o' as u8);
    v.push('c' as u8);
    v.push('k' as u8);
    v.push('i' as u8);
    v.push('t' as u8);
    v.push('o' as u8);
    v.push('/' as u8);
    v.push('l' as u8);
    v.push('a' as u8);
    v.push('s' as u8);
    v.push('t' as u8);
    v.push('_' as u8);
    v.push('u' as u8);
    v.push('n' as u8);
    v.push('m' as u8);
    v.push('a' as u8);
    v.push('t' as u8);
    v.push('c' as u8);
    v.push('h' as u8);
    v.push('e' as u8);
    v.push('d' as u8);
    v.push('_' as u8);
    v.push('r' as u8);
    v.push('e' as u8);
    v.push('q' as u8);
    v.push('u' as u8);
    v.push('e' as u8);
    v.push('s' as u8);
    v.push('t' as u8);
    assert(v@ =~= route_last());
    v
}

/// The byte string `the body is not a mock record`.
pub open spec fn parse_error_message() -> Seq<u8> {
    seq![
        't' as u8,
        'h' as u8,
        'e' as u8,
        ' ' as u8,
        'b' as u8,
        'o' as u8,
        'd' as u8,
        'y' as u8,
        ' ' as u8,
        'i' as u8,
        's' as u8,
        ' ' as u8,
        'n' as u8,
        'o' as u8,
        't' as u8,
        ' ' as u8,
        'a' as u8,
        ' ' as u8,
        'm' as u8,
        'o' as u8,
        'c' as u8,
        'k' as u8,
        ' ' as u8,
        'r' as u8,
        'e' as u8,
        'c' as u8,
        'o' as u8,
        'r' as u8,
        'd' as u8,
    ]
}

/// Builds `parse_error_message` as bytes.
pub fn parse_error_message_bytes() -> (r: Vec<u8>)
    ensures
        r@ == parse_error_message(),
{
    let mut v: Vec<u8> = Vec::new();
    v.push('t' as u8);
    v.push('h' as u8);
    v.push('e' as u8);
    v.push(' ' as u8);
    v.push('b' as u8);
    v.push('o' as u8);
    v.push('d' as u8);
    v.push('y' as u8);
    v.push(' ' as u8);
    v.push('i' as u8);
    v.push('s' as u8);
    v.push(' ' as u8);
    v.push('n' as u8);
    v.push('o' as u8);
    v.push('t' as u8);
    v.push(' ' as u8);
    v.push('a' as u8);
    v.push(' ' as u8);
    v.push('m' as u8);
    v.push('o' as u8);
    v.push('c' as u8);
    v.push('k' as u8);
    v.push(' ' as u8);
    v.push('r' as u8);
    v.push('e' as u8);
    v.push('c' as u8);
    v.push('o' as u8);
    v.push('r' as u8);
    v.push('d' as u8);
    assert(v@ =~= parse_error_message());
    v
}

/// The byte string `a pattern in the mock does not compile`.
pub open spec fn pattern_error_message() -> Seq<u8> {
    seq![
        'a' as u8,
        ' ' as u8,
        'p' as u8,
        'a' as u8,
        't' as u8,
        't' as u8,
        'e' as u8,
        'r' as u8,
        'n' as u8,
        ' ' as u8,
        'i' as u8,
        'n' as u8,
        ' ' as u8,
        't' as u8,
        'h' as u8,
        'e' as u8,
        ' ' as u8,
        'm' as u8,
        'o' as u8,
        'c' as u8,
        'k' as u8,
        ' ' as u8,
        'd' as u8,
        'o' as u8,
        'e' as u8,
        's' as u8,
        ' ' as u8,
        'n' as u8,
        'o' as u8,
        't' as u8,
        ' ' as u8,
        'c' as u8,
        'o' as u8,
        'm' as u8,
        'p' as u8,
        'i' as u8,
        'l' as u8,
        'e' as u8,
    ]
}

/// Builds `pattern_error_message` as bytes.
pub fn pattern_error_message_bytes() -> (r: Vec<u8>)
    ensures
        r@ == pattern_error_message(),
{
    let mut v: Vec<u8> = Vec::new();
    v.push('a' as u8);
    v.push(' ' as u8);
    v.push('p' as u8);
    v.push('a' as u8);
    v.push('t' as u8);
    v.push('t' as u8);
    v.push('e' as u8);
    v.push('r' as u8);
    v.push('n' as u8);
    v.push(' ' as u8);
    v.push('i' as u8);
    v.push('n' as u8);
    v.push(' ' as u8);
    v.push('t' as u8);
    v.push('h' as u8);
    v.push('e' as u8);
    v.push(' ' as u8);
    v.push('m' as u8);
    v.push('o' as u8);
    v.push('c' as u8);
    v.push('k' as u8);
    v.push(' ' as u8);
    v.push('d' as u8);
    v.push('o' as u8);
    v.push('e' as u8);
    v.push('s' as u8);
    v.push(' ' as u8);
    v.push('n' as u8);
    v.push('o' as u8);
    v.push('t' as u8);
    v.push(' ' as u8);
    v.push('c' as u8);
    v.push('o' as u8);
    v.push('m' as u8);
    v.push('p' as u8);
    v.push('i' as u8);
    v.push('l' as u8);
    v.push('e' as u8);
    assert(v@ =~= pattern_error_message());
    v
}
/// Fetches the first mock with the given id and answers with its serialized
/// record, or not-found.
pub fn handle_get_mock(state: &State, mock_id: &[u8]) -> (r: ApiResponse)
    ensures
        r@ == get_mock_resp(state@, mock_id@),
{
    let ghost ms = state@.mocks;
    let mut i: usize = 0;
    while i < state.mocks.len()
        invariant
            0 <= i <= state.mocks.len(),
            ms == mocks_view(state.mocks@),
            ms.len() == state.mocks@.len(),
            forall|j: int| 0 <= j < i ==> (#[trigger] ms[j]).id != mock_id@,
        decreases state.mocks.len() - i,
    {
        if bytes_eq(state.mocks[i].id.as_slice(), mock_id) {
            proof {
                lemma_first_index_witness(ms, mock_id@, i as int);
            }
            let body = serialize_mock(&state.mocks[i]);
            return make_ok_body(body);
        }
        i = i + 1;
    }
    proof {
        lemma_first_index_none(ms, mock_id@);
    }
    make_not_found()
}

/// Registers the mock carried by the request body: a well-formed record with
/// compiling patterns is appended to the registry and answered with an empty
/// success; anything else changes nothing and is answered with a diagnostic
/// client error.
pub fn handle_post_mock(state: &mut State, request: &Request) -> (r: ApiResponse)
    ensures
        final(state)@.unmatched_requests == old(state)@.unmatched_requests,
        r@.status == status_ok() ==> exists|m: MockModel|
            request@.body == ser_mock(m) && spec_mock_patterns_valid(m) && final(state)@.mocks
                == old(state)@.mocks.push(m) && r@ == resp_ok_empty(),
        forall|m: MockModel|
            request@.body == ser_mock(m) && r@.status == status_ok() ==> final(state)@.mocks
                == old(state)@.mocks.push(m),
        r@.status != status_ok() ==> final(state)@ == old(state)@ && (r@ == resp_unprocessable(
            parse_error_message(),
        ) || r@ == resp_unprocessable(pattern_error_message())),
        (forall|m: MockModel| request@.body != ser_mock(m)) ==> r@ == resp_unprocessable(
            parse_error_message(),
        ),
{
    match parse_mock(request.body.as_slice()) {
        Some(m) => {
            if m.patterns_valid() {
                let ghost mv = m@;
                state.mocks.push(m);
                proof {
                    assert(final(state)@.mocks =~= old(state)@.mocks.push(mv));
                    assert(final(state)@.unmatched_requests
                        =~= old(state)@.unmatched_requests);
                    assert forall|mm: MockModel|
                        request@.body == ser_mock(mm) implies final(state)@.mocks == old(
                        state,
                    )@.mocks.push(mm) by {
                        crate::json::lemma_ser_mock_injective(mm, mv);
                    }
                }
                let r = make_ok_empty();
                assert(status_ok() != status_unprocessable());
                r
            } else {
                assert(final(state)@ =~= old(state)@) by {
                    assert(final(state)@.mocks =~= old(state)@.mocks);
                    assert(final(state)@.unmatched_requests
                        =~= old(state)@.unmatched_requests);
                }
                let r = make_unprocessable(pattern_error_message_bytes());
                assert(r@.status != status_ok());
                r
            }
        },
        None => {
            assert(final(state)@ =~= old(state)@) by {
                assert(final(state)@.mocks =~= old(state)@.mocks);
                assert(final(state)@.unmatched_requests =~= old(state)@.unmatched_requests);
            }
            let r = make_unprocessable(parse_error_message_bytes());
            assert(r@.status != status_ok());
            r
        },
    }
}

/// Clears the whole registry of mocks; the unmatched log stays.
pub fn handle_delete_mocks(state: &mut State) -> (r: ApiResponse)
    ensures
        final(state)@.mocks.len() == 0,
        final(state)@.unmatched_requests == old(state)@.unmatched_requests,
        r@ == resp_ok_empty(),
{
    state.mocks.clear();
    proof {
        assert(final(state)@.unmatched_requests =~= old(state)@.unmatched_requests);
    }
    make_ok_empty()
}

/// Deletes the first mock with the given id, or answers not-found.
pub fn handle_delete_mock(state: &mut State, mock_id: &[u8]) -> (r: ApiResponse)
    ensures
        (final(state)@, r@) == delete_mock_step(old(state)@, mock_id@),
{
    let ghost ms = old(state)@.mocks;
    let mut i: usize = 0;
    while i < state.mocks.len()
        invariant
            0 <= i <= state.mocks.len(),
            state == old(state),
            ms == mocks_view(state.mocks@),
            ms.len() == state.mocks@.len(),
            forall|j: int| 0 <= j < i ==> (#[trigger] ms[j]).id != mock_id@,
        decreases state.mocks.len() - i,
    {
        if bytes_eq(state.mocks[i].id.as_slice(), mock_id) {
            proof {
                lemma_first_index_witness(ms, mock_id@, i as int);
            }
            state.mocks.remove(i);
            proof {
                assert(final(state)@.mocks =~= ms.remove(i as int));
                assert(final(state)@.unmatched_requests =~= old(state)@.unmatched_requests);
            }
            return make_ok_empty();
        }
        i = i + 1;
    }
    proof {
        lemma_first_index_none(ms, mock_id@);
    }
    make_not_found()
}

/// Answers with the rendering of the most recently logged unmatched request,
/// or an empty body.
pub fn handle_last_unmatched_request(state: &State) -> (r: ApiResponse)
    ensures
        r@ == last_unmatched_resp(state@),
{
    if state.unmatched_requests.len() == 0 {
        let body: Vec<u8> = Vec::new();
        let r = make_ok_body(body);
        assert(r@ == resp_ok_body(Seq::<u8>::empty()));
        r
    } else {
        let last = &state.unmatched_requests[state.unmatched_requests.len() - 1];
        assert(last@ == state@.unmatched_requests.last());
        let body = render_request(last);
        make_ok_body(body)
    }
}

/// The matching protocol: scans the registered mocks most recent first,
/// replays the first satisfied mock's canned response and counts its hit;
/// when none is satisfied, logs the request and answers `501`.
pub fn handle_match_mock(state: &mut State, request: Request) -> (r: ApiResponse)
    ensures
        (final(state)@, r@) == match_step(old(state)@, request@),
{
    let ghost ms = old(state)@.mocks;
    let mut i: usize = state.mocks.len();
    while i > 0
        invariant
            0 <= i <= state.mocks.len(),
            state == old(state),
            ms == mocks_view(state.mocks@),
            ms.len() == state.mocks@.len(),
            forall|j: int|
                i <= j < ms.len() ==> !spec_mock_matches(#[trigger] ms[j], request@),
        decreases i,
    {
        i = i - 1;
        if state.mocks[i].mock_matches(&request) {
            proof {
                lemma_match_index_witness(ms, request@, i as int);
            }
            let m = state.mocks.remove(i);
            let resp = make_from_mock(m.response_copy());
            let hits = if m.hits < usize::MAX {
                m.hits + 1
            } else {
                m.hits
            };
            let bumped_mock = RemoteMock {
                id: m.id,
                method: m.method,
                path: m.path,
                headers: m.headers,
                body: m.body,
                response: m.response,
                hits,
                expected_hits: m.expected_hits,
            };
            state.mocks.insert(i, bumped_mock);
            proof {
                assert(bumped_mock@ == bump_hits(ms[i as int]));
                assert(final(state)@.mocks =~= ms.update(i as int, bump_hits(ms[i as int])));
                assert(final(state)@.unmatched_requests
                    =~= old(state)@.unmatched_requests);
            }
            return resp;
        }
    }
    proof {
        lemma_match_index_none(ms, request@);
    }
    let ghost rv = request@;
    state.unmatched_requests.push(request);
    proof {
        assert(final(state)@.mocks =~= old(state)@.mocks);
        assert(final(state)@.unmatched_requests =~= old(state)@.unmatched_requests.push(rv));
    }
    make_not_implemented()
}

/// The id captured by a mock route: what follows the mock path prefix.
pub open spec fn mock_route_id(r: RequestModel) -> Seq<u8> {
    r.path.skip(route_mock_prefix().len() as int)
}

/// The fetch-by-id route: `GET /mockito/mocks/{id}` with a word id. The id
/// grammar is ASCII-only (letters, digits, underscore): a path whose suffix
/// holds any other byte is no administrative route and falls through to the
/// matching protocol.
pub open spec fn is_get_mock_route(r: RequestModel) -> bool {
    r.method == method_get() && spec_starts_with(r.path, route_mock_prefix()) && spec_is_word(
        mock_route_id(r),
    )
}

/// The register route: `POST /mockito/mocks`.
pub open spec fn is_post_mock_route(r: RequestModel) -> bool {
    r.method == method_post() && r.path == route_mocks()
}

/// The delete-all route: `DELETE /mockito/mocks`.
pub open spec fn is_delete_mocks_route(r: RequestModel) -> bool {
    r.method == method_delete() && r.path == route_mocks()
}

/// The delete-by-id route: `DELETE /mockito/mocks/{id}` with a word id, the
/// same ASCII-only grammar as the fetch route.
pub open spec fn is_delete_mock_route(r: RequestModel) -> bool {
    r.method == method_delete() && spec_starts_with(r.path, route_mock_prefix()) && spec_is_word(
        mock_route_id(r),
    )
}

/// The diagnostics route: `GET /mockito/last_unmatched_request`.
pub open spec fn is_last_unmatched_route(r: RequestModel) -> bool {
    r.method == method_get() && r.path == route_last()
}

/// Whether any administrative route claims the request.
pub open spec fn is_admin_route(r: RequestModel) -> bool {
    is_get_mock_route(r) || is_post_mock_route(r) || is_delete_mocks_route(r)
        || is_delete_mock_route(r) || is_last_unmatched_route(r)
}

/// The dispatcher: tries the administrative routes in their fixed order and
/// falls through to the matching protocol.
pub fn handle_request(state: &mut State, request: Request) -> (r: ApiResponse)
    ensures
        is_get_mock_route(request@) ==> final(state)@ == old(state)@ && r@ == get_mock_resp(
            old(state)@,
            mock_route_id(request@),
        ),
        is_post_mock_route(request@) ==> {
            &&& final(state)@.unmatched_requests == old(state)@.unmatched_requests
            &&& (r@.status == status_ok() ==> exists|m: MockModel|
                request@.body == ser_mock(m) && spec_mock_patterns_valid(m) && final(state)@.mocks
                    == old(state)@.mocks.push(m) && r@ == resp_ok_empty())
            &&& (r@.status != status_ok() ==> final(state)@ == old(state)@ && (r@
                == resp_unprocessable(parse_error_message()) || r@ == resp_unprocessable(
                pattern_error_message(),
            )))
        },
        is_delete_mocks_route(request@) ==> final(state)@.mocks.len() == 0
            && final(state)@.unmatched_requests == old(state)@.unmatched_requests
            && r@ == resp_ok_empty(),
        is_delete_mock_route(request@) ==> (final(state)@, r@) == delete_mock_step(
            old(state)@,
            mock_route_id(request@),
        ),
        is_last_unmatched_route(request@) ==> final(state)@ == old(state)@ && r@
            == last_unmatched_resp(old(state)@),
        !is_admin_route(request@) ==> (final(state)@, r@) == match_step(old(state)@, request@),
{
    let get_lit = method_get_bytes();
    let post_lit = method_post_bytes();
    let delete_lit = method_delete_bytes();
    let mocks_lit = route_mocks_bytes();
    let prefix_lit = route_mock_prefix_bytes();
    let last_lit = route_last_bytes();

    let is_get = bytes_eq(request.method.as_slice(), get_lit.as_slice());
    let is_post = bytes_eq(request.method.as_slice(), post_lit.as_slice());
    let is_delete = bytes_eq(request.method.as_slice(), delete_lit.as_slice());
    let path_is_mocks = bytes_eq(request.path.as_slice(), mocks_lit.as_slice());
    let path_has_prefix = starts_with(request.path.as_slice(), prefix_lit.as_slice());
    let path_is_last = bytes_eq(request.path.as_slice(), last_lit.as_slice());

    if is_get && path_has_prefix {
        let id = suffix_from(request.path.as_slice(), prefix_lit.len());
        if is_word(id.as_slice()) {
            return handle_get_mock(state, id.as_slice());
        }
    }
    if is_post && path_is_mocks {
        return handle_post_mock(state, &request);
    }
    if is_delete && path_is_mocks {
        return handle_delete_mocks(state);
    }
    if is_delete && path_has_prefix {
        let id = suffix_from(request.path.as_slice(), prefix_lit.len());
        if is_word(id.as_slice()) {
            return handle_delete_mock(state, id.as_slice());
        }
    }
    if is_get && path_is_last {
        return handle_last_unmatched_request(state);
    }
    assert(!is_admin_route(request@));
    handle_match_mock(state, request)
}

} // verus!
