//! The engine's laws: what the registry and the matching protocol guarantee,
//! stated over the models and proved once and for all.

use vstd::prelude::*;

use crate::json::{lemma_ser_mock_injective, ser_mock};
use crate::matcher::{matcher_matches, MatcherModel};
use crate::mock::{spec_headers_match, spec_mock_matches, spec_mock_patterns_valid, MockModel};
use crate::request::{spec_find_header, spec_render_request, RequestModel};
use crate::response::{resp_from_mock, resp_not_found, resp_not_implemented, resp_ok_body,
    resp_ok_empty};
use crate::server::{
    bump_hits, bumped, delete_mock_step, get_mock_resp, last_unmatched_resp,
    lemma_first_index_none, lemma_first_index_props, lemma_first_index_witness,
    lemma_match_index_none, lemma_match_index_props, lemma_match_index_witness, match_step,
    spec_first_mock_index, spec_match_index, state_wf, StateModel,
};

verus! {

/// Law: a request that satisfies a just-registered mock is answered with
/// that mock's canned response; its hit counter alone grows, by exactly one
/// (held at the machine's ceiling), and nothing is logged as unmatched.
pub proof fn lemma_registered_mock_answers(s: StateModel, m: MockModel, r: RequestModel)
    requires
        spec_mock_matches(m, r),
    ensures
        ({
            let s1 = StateModel {
                mocks: s.mocks.push(m),
                unmatched_requests: s.unmatched_requests,
            };
            let (s2, resp) = match_step(s1, r);
            &&& resp == resp_from_mock(m.response)
            &&& s2.mocks.len() == s1.mocks.len()
            &&& s2.mocks.last() == bump_hits(m)
            &&& s2.mocks.last().hits == bumped(m.hits)
            &&& forall|j: int| 0 <= j < s.mocks.len() ==> s2.mocks[j] == s.mocks[j]
            &&& s2.unmatched_requests == s.unmatched_requests
        }),
{
    let s1mocks = s.mocks.push(m);
    lemma_match_index_witness(s1mocks, r, s.mocks.len() as int);
}

/// Law: of two registered mocks that both could answer, the most recently
/// registered one answers — whatever the earlier one would have said.
pub proof fn lemma_latest_registration_wins(
    s: StateModel,
    earlier: MockModel,
    later: MockModel,
    r: RequestModel,
)
    requires
        spec_mock_matches(later, r),
    ensures
        ({
            let s1 = StateModel {
                mocks: s.mocks.push(earlier).push(later),
                unmatched_requests: s.unmatched_requests,
            };
            match_step(s1, r).1 == resp_from_mock(later.response)
        }),
{
    let s1mocks = s.mocks.push(earlier).push(later);
    lemma_match_index_witness(s1mocks, r, s1mocks.len() - 1);
}

/// Law: a request no registered mock satisfies is answered with the
/// `501 Not Implemented` signal, the registry of mocks stays as it was, and
/// the request itself becomes retrievable as the last unmatched request.
pub proof fn lemma_unmatched_is_recorded(s: StateModel, r: RequestModel)
    requires
        forall|j: int| 0 <= j < s.mocks.len() ==> !spec_mock_matches(#[trigger] s.mocks[j], r),
    ensures
        ({
            let (s2, resp) = match_step(s, r);
            &&& resp == resp_not_implemented()
            &&& s2.mocks == s.mocks
            &&& s2.unmatched_requests == s.unmatched_requests.push(r)
            &&& last_unmatched_resp(s2) == resp_ok_body(spec_render_request(r))
        }),
{
    lemma_match_index_none(s.mocks, r);
}

/// Law: a `Missing` header expectation is satisfied exactly when the named
/// header is wholly absent from the request; a present header with any
/// value — the empty string included — defeats the whole match.
pub proof fn lemma_missing_header_semantics(m: MockModel, r: RequestModel, i: int)
    requires
        0 <= i < m.headers.len(),
        m.headers[i].1 == MatcherModel::Missing,
    ensures
        spec_find_header(r.headers, m.headers[i].0) is Some ==> !spec_mock_matches(m, r),
        spec_find_header(r.headers, m.headers[i].0) is None ==> matcher_matches(
            m.headers[i].1,
            spec_find_header(r.headers, m.headers[i].0),
        ),
{
    if spec_find_header(r.headers, m.headers[i].0) is Some {
        assert(!matcher_matches(m.headers[i].1, spec_find_header(r.headers, m.headers[i].0)));
        assert(!spec_headers_match(m, r));
    }
}

/// Law: deleting by a uniquely held id removes exactly that mock — the
/// survivors keep their order and their contents — a subsequent fetch by
/// that id answers not-found, and the unmatched log stays.
pub proof fn lemma_delete_by_id_is_exact(s: StateModel, id: Seq<u8>, i: int)
    requires
        0 <= i < s.mocks.len(),
        s.mocks[i].id == id,
        forall|j: int| 0 <= j < s.mocks.len() && j != i ==> (#[trigger] s.mocks[j]).id != id,
    ensures
        ({
            let (s2, resp) = delete_mock_step(s, id);
            &&& resp == resp_ok_empty()
            &&& s2.mocks == s.mocks.remove(i)
            &&& s2.mocks.len() == s.mocks.len() - 1
            &&& forall|j: int| 0 <= j < i ==> s2.mocks[j] == s.mocks[j]
            &&& forall|j: int| i <= j < s2.mocks.len() ==> s2.mocks[j] == s.mocks[j + 1]
            &&& get_mock_resp(s2, id) == resp_not_found()
            &&& s2.unmatched_requests == s.unmatched_requests
        }),
{
    lemma_first_index_witness(s.mocks, id, i);
    let s2mocks = s.mocks.remove(i);
    assert(forall|j: int| 0 <= j < s2mocks.len() ==> (#[trigger] s2mocks[j]).id != id) by {
        assert(forall|j: int|
            0 <= j < s2mocks.len() ==> s2mocks[j] == (if j < i {
                s.mocks[j]
            } else {
                s.mocks[j + 1]
            }));
    }
    lemma_first_index_none(s2mocks, id);
}

/// Law: after deleting all mocks, every request falls through to the
/// unmatched path: it is answered `501` and logged.
pub proof fn lemma_empty_registry_matches_nothing(s: StateModel, r: RequestModel)
    requires
        s.mocks.len() == 0,
    ensures
        match_step(s, r).1 == resp_not_implemented(),
        match_step(s, r).0.unmatched_requests == s.unmatched_requests.push(r),
        match_step(s, r).0.mocks.len() == 0,
{
    lemma_match_index_none(s.mocks, r);
}


/// Law (the provable half of the round trip): fetching a mock by id answers
/// with its written record, and a record pins the mock it was written from.
/// So whenever a re-registration of a fetched record is accepted, the
/// appended mock is the fetched one itself, and a stimulus the fetched mock
/// satisfies draws the byte-identical canned response from the re-registered
/// one. (That the writer's record is accepted at all is exercised by the
/// test suite; this law rules out any other mock resulting from it.)
pub proof fn lemma_fetched_record_reregisters_exactly(
    s: StateModel,
    id: Seq<u8>,
    i: int,
    appended: MockModel,
    others: Seq<MockModel>,
    unmatched: Seq<RequestModel>,
    r: RequestModel,
)
    requires
        spec_first_mock_index(s.mocks, id) == Some(i),
        ser_mock(appended) == ser_mock(s.mocks[i]),
        spec_mock_matches(s.mocks[i], r),
    ensures
        get_mock_resp(s, id) == resp_ok_body(ser_mock(s.mocks[i])),
        appended == s.mocks[i],
        match_step(StateModel { mocks: others.push(appended), unmatched_requests: unmatched }, r).1
            == resp_from_mock(s.mocks[i].response),
{
    lemma_first_index_props(s.mocks, id);
    lemma_ser_mock_injective(appended, s.mocks[i]);
    lemma_match_index_witness(others.push(appended), r, others.len() as int);
}


/// Law: registration is the only gate patterns pass through. Once every
/// registered mock's patterns compile, they still do after any transition:
/// registering another mock with compiling patterns, deleting by id, or
/// running the matching protocol (which only bumps a hit counter).
pub proof fn lemma_transitions_preserve_pattern_validity(
    s: StateModel,
    id: Seq<u8>,
    m: MockModel,
    r: RequestModel,
)
    requires
        state_wf(s),
    ensures
        spec_mock_patterns_valid(m) ==> state_wf(
            StateModel { mocks: s.mocks.push(m), unmatched_requests: s.unmatched_requests },
        ),
        state_wf(delete_mock_step(s, id).0),
        state_wf(match_step(s, r).0),
{
    lemma_first_index_props(s.mocks, id);
    match spec_first_mock_index(s.mocks, id) {
        Some(i) => {
            let ms = s.mocks.remove(i);
            assert(forall|j: int|
                0 <= j < ms.len() ==> #[trigger] ms[j] == (if j < i {
                    s.mocks[j]
                } else {
                    s.mocks[j + 1]
                }));
        },
        None => {},
    }
    lemma_match_index_props(s.mocks, r);
    match spec_match_index(s.mocks, r) {
        Some(i) => {
            assert(spec_mock_patterns_valid(bump_hits(s.mocks[i]))) by {
                assert(bump_hits(s.mocks[i]).path == s.mocks[i].path);
                assert(bump_hits(s.mocks[i]).body == s.mocks[i].body);
                assert(bump_hits(s.mocks[i]).headers == s.mocks[i].headers);
            }
        },
        None => {},
    }
}

} // verus!
