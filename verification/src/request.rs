//! The engine's view of a parsed HTTP request: plain byte strings for
//! method, path, headers and body. The transport parses raw bytes into this
//! shape before the engine sees anything.

use vstd::prelude::*;

use crate::bytes::{extend_bytes, lower, lower_byte_exec};

verus! {

/// The mathematical model of a request.
pub struct RequestModel {
    pub method: Seq<u8>,
    pub path: Seq<u8>,
    pub headers: Seq<(Seq<u8>, Seq<u8>)>,
    pub body: Seq<u8>,
}

/// A parsed request, read-only to the engine.
pub struct Request {
    pub method: Vec<u8>,
    pub path: Vec<u8>,
    pub headers: Vec<(Vec<u8>, Vec<u8>)>,
    pub body: Vec<u8>,
}

/// The view of a header list.
pub open spec fn headers_view(hs: Seq<(Vec<u8>, Vec<u8>)>) -> Seq<(Seq<u8>, Seq<u8>)> {
    hs.map_values(|p: (Vec<u8>, Vec<u8>)| (p.0@, p.1@))
}

impl View for Request {
    type V = RequestModel;

    open spec fn view(&self) -> RequestModel {
        RequestModel {
            method: self.method@,
            path: self.path@,
            headers: headers_view(self.headers@),
            body: self.body@,
        }
    }
}

/// The value of the first header whose name equals `name` up to ASCII case,
/// or `None` when no header carries that name.
pub open spec fn spec_find_header(hs: Seq<(Seq<u8>, Seq<u8>)>, name: Seq<u8>) -> Option<Seq<u8>>
    decreases hs.len(),
{
    if hs.len() == 0 {
        None
    } else if lower(hs[0].0) == lower(name) {
        Some(hs[0].1)
    } else {
        spec_find_header(hs.skip(1), name)
    }
}

/// A helper lemma: `spec_find_header` over a list is decided by its first
/// match, scanning front to back.
pub proof fn lemma_find_header_index(hs: Seq<(Seq<u8>, Seq<u8>)>, name: Seq<u8>, i: int)
    requires
        0 <= i < hs.len(),
        lower(hs[i].0) == lower(name),
        forall|j: int| 0 <= j < i ==> lower(#[trigger] hs[j].0) != lower(name),
    ensures
        spec_find_header(hs, name) == Some(hs[i].1),
    decreases hs.len(),
{
    if i == 0 {
    } else {
        assert(forall|j: int|
            0 <= j < i - 1 ==> lower(#[trigger] hs.skip(1)[j].0) != lower(name)) by {
            assert(forall|j: int| 0 <= j < i - 1 ==> hs.skip(1)[j] == hs[j + 1]);
        }
        lemma_find_header_index(hs.skip(1), name, i - 1);
    }
}

/// A helper lemma: when no header name matches, `spec_find_header` is
/// `None`.
pub proof fn lemma_find_header_none(hs: Seq<(Seq<u8>, Seq<u8>)>, name: Seq<u8>)
    requires
        forall|j: int| 0 <= j < hs.len() ==> lower(#[trigger] hs[j].0) != lower(name),
    ensures
        spec_find_header(hs, name) is None,
    decreases hs.len(),
{
    if hs.len() > 0 {
        lemma_find_header_none(hs.skip(1), name);
    }
}

impl Request {
    /// Looks a header up by name, case-insensitively, returning the value of
    /// the first header with that name.
    pub fn find_header(&self, name: &[u8]) -> (r: Option<&Vec<u8>>)
        ensures
            match r {
                Some(v) => spec_find_header(self@.headers, name@) == Some(v@),
                None => spec_find_header(self@.headers, name@) is None,
            },
    {
        let ghost hs = self@.headers;
        let mut i: usize = 0;
        while i < self.headers.len()
            invariant
                0 <= i <= self.headers.len(),
                hs == headers_view(self.headers@),
                hs.len() == self.headers@.len(),
                forall|j: int| 0 <= j < i ==> lower(#[trigger] hs[j].0) != lower(name@),
            decreases self.headers.len() - i,
        {
            let pair = &self.headers[i];
            if crate::bytes::bytes_eq_nocase(pair.0.as_slice(), name) {
                proof {
                    lemma_find_header_index(hs, name@, i as int);
                }
                return Some(&self.headers[i].1);
            }
            i = i + 1;
        }
        proof {
            lemma_find_header_none(hs, name@);
        }
        None
    }
}

/// The diagnostic rendering of a request: the request line, then each header
/// as `name: value`, a blank line, and the raw body, with CRLF line ends.
pub open spec fn spec_render_header_lines(hs: Seq<(Seq<u8>, Seq<u8>)>) -> Seq<u8>
    decreases hs.len(),
{
    if hs.len() == 0 {
        Seq::empty()
    } else {
        hs[0].0 + seq![':' as u8, ' ' as u8] + hs[0].1 + seq![13u8, 10u8]
            + spec_render_header_lines(hs.skip(1))
    }
}

/// The full diagnostic rendering of a request.
pub open spec fn spec_render_request(r: RequestModel) -> Seq<u8> {
    r.method + seq![' ' as u8] + r.path + seq![13u8, 10u8] + spec_render_header_lines(r.headers)
        + seq![13u8, 10u8] + r.body
}

/// Renders a request for diagnostics.
pub fn render_request(r: &Request) -> (out: Vec<u8>)
    ensures
        out@ == spec_render_request(r@),
{
    let ghost hs = r@.headers;
    let mut v: Vec<u8> = Vec::new();
    extend_bytes(&mut v, r.method.as_slice());
    v.push(' ' as u8);
    extend_bytes(&mut v, r.path.as_slice());
    v.push(13u8);
    v.push(10u8);
    let ghost before_headers = v@;
    assert(before_headers =~= r@.method + seq![' ' as u8] + r@.path + seq![13u8, 10u8]);
    let mut i: usize = 0;
    while i < r.headers.len()
        invariant
            0 <= i <= r.headers.len(),
            hs == headers_view(r.headers@),
            hs.len() == r.headers@.len(),
            v@ == before_headers + spec_render_header_lines(hs.subrange(0, i as int)),
        decreases r.headers.len() - i,
    {
        let ghost v0 = v@;
        extend_bytes(&mut v, r.headers[i].0.as_slice());
        v.push(':' as u8);
        v.push(' ' as u8);
        extend_bytes(&mut v, r.headers[i].1.as_slice());
        v.push(13u8);
        v.push(10u8);
        proof {
            let line = hs[i as int].0 + seq![':' as u8, ' ' as u8] + hs[i as int].1 + seq![
                13u8,
                10u8,
            ];
            assert(v@ =~= v0 + line);
            lemma_render_header_lines_push(hs, i as int);
            assert(v@ =~= before_headers + spec_render_header_lines(
                hs.subrange(0, i as int + 1),
            ));
        }
        i = i + 1;
    }
    assert(hs.subrange(0, hs.len() as int) =~= hs);
    v.push(13u8);
    v.push(10u8);
    extend_bytes(&mut v, r.body.as_slice());
    assert(v@ =~= spec_render_request(r@));
    v
}

/// A helper lemma: rendering one more header line appends that line.
proof fn lemma_render_header_lines_push(hs: Seq<(Seq<u8>, Seq<u8>)>, i: int)
    requires
        0 <= i < hs.len(),
    ensures
        spec_render_header_lines(hs.subrange(0, i + 1)) == spec_render_header_lines(
            hs.subrange(0, i),
        ) + (hs[i].0 + seq![':' as u8, ' ' as u8] + hs[i].1 + seq![13u8, 10u8]),
    decreases i,
{
    if i == 0 {
        let s = hs.subrange(0, 1);
        assert(s[0] == hs[0]);
        assert(s.skip(1) =~= Seq::<(Seq<u8>, Seq<u8>)>::empty());
        assert(spec_render_header_lines(s.skip(1)) == Seq::<u8>::empty());
        assert(spec_render_header_lines(hs.subrange(0, 0)) == Seq::<u8>::empty());
        assert(spec_render_header_lines(s) =~= hs[0].0 + seq![':' as u8, ' ' as u8] + hs[0].1
            + seq![13u8, 10u8]);
    } else {
        lemma_render_header_lines_push(hs.skip(1), i - 1);
        let a = hs.subrange(0, i + 1);
        let b = hs.subrange(0, i);
        assert(a.skip(1) =~= hs.skip(1).subrange(0, i));
        assert(b.skip(1) =~= hs.skip(1).subrange(0, i - 1));
        assert(hs.skip(1)[i - 1] == hs[i]);
        assert(spec_render_header_lines(a) =~= spec_render_header_lines(b) + (hs[i].0 + seq![
            ':' as u8,
            ' ' as u8,
        ] + hs[i].1 + seq![13u8, 10u8]));
    }
}

} // verus!
