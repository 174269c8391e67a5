//! The structured outcome the engine hands back for every request: a status
//! line tail, header pairs in order, and the body bytes. The transport
//! frames it as `HTTP/1.1 <status>\r\n<headers>\r\n<body>` verbatim.

use vstd::prelude::*;

use crate::mock::ResponseModel;

verus! {

/// The mathematical model of an outcome.
pub struct ApiResponseModel {
    pub status: Seq<u8>,
    pub headers: Seq<(Seq<u8>, Seq<u8>)>,
    pub body: Seq<u8>,
}

/// What the engine answers: status line tail, headers in the order they must
/// be written, body bytes.
pub struct ApiResponse {
    pub status: Vec<u8>,
    pub headers: Vec<(Vec<u8>, Vec<u8>)>,
    pub body: Vec<u8>,
}

impl View for ApiResponse {
    type V = ApiResponseModel;

    open spec fn view(&self) -> ApiResponseModel {
        ApiResponseModel {
            status: self.status@,
            headers: crate::request::headers_view(self.headers@),
            body: self.body@,
        }
    }
}

/// The `200 OK` status line tail.
pub open spec fn status_ok() -> Seq<u8> {
    seq![
        '2' as u8,
        '0' as u8,
        '0' as u8,
        ' ' as u8,
        'O' as u8,
        'K' as u8,
    ]
}

/// The `404 Not Found` status line tail.
pub open spec fn status_not_found() -> Seq<u8> {
    seq![
        '4' as u8,
        '0' as u8,
        '4' as u8,
        ' ' as u8,
        'N' as u8,
        'o' as u8,
        't' as u8,
        ' ' as u8,
        'F' as u8,
        'o' as u8,
        'u' as u8,
        'n' as u8,
        'd' as u8,
    ]
}

/// The `422 Unprocessable Entity` status line tail.
pub open spec fn status_unprocessable() -> Seq<u8> {
    seq![
        '4' as u8,
        '2' as u8,
        '2' as u8,
        ' ' as u8,
        'U' as u8,
        'n' as u8,
        'p' as u8,
        'r' as u8,
        'o' as u8,
        'c' as u8,
        'e' as u8,
        's' as u8,
        's' as u8,
        'a' as u8,
        'b' as u8,
        'l' as u8,
        'e' as u8,
        ' ' as u8,
        'E' as u8,
        'n' as u8,
        't' as u8,
        'i' as u8,
        't' as u8,
        'y' as u8,
    ]
}

/// The `501 Not Implemented` status line tail.
pub open spec fn status_not_implemented() -> Seq<u8> {
    seq![
        '5' as u8,
        '0' as u8,
        '1' as u8,
        ' ' as u8,
        'N' as u8,
        'o' as u8,
        't' as u8,
        ' ' as u8,
        'I' as u8,
        'm' as u8,
        'p' as u8,
        'l' as u8,
        'e' as u8,
        'm' as u8,
        'e' as u8,
        'n' as u8,
        't' as u8,
        'e' as u8,
        'd' as u8,
    ]
}

/// The `content-length` header name.
pub open spec fn content_length_name() -> Seq<u8> {
    seq![
        'c' as u8,
        'o' as u8,
        'n' as u8,
        't' as u8,
        'e' as u8,
        'n' as u8,
        't' as u8,
        '-' as u8,
        'l' as u8,
        'e' as u8,
        'n' as u8,
        'g' as u8,
        't' as u8,
        'h' as u8,
    ]
}

/// Builds the `200 OK` status bytes.
fn status_ok_bytes() -> (r: Vec<u8>)
    ensures
        r@ == status_ok(),
{
    let mut v: Vec<u8> = Vec::new();
    v.push('2' as u8);
    v.push('0' as u8);
    v.push('0' as u8);
    v.push(' ' as u8);
    v.push('O' as u8);
    v.push('K' as u8);
    assert(v@ =~= status_ok());
    v
}

/// Builds the `404 Not Found` status bytes.
fn status_not_found_bytes() -> (r: Vec<u8>)
    ensures
        r@ == status_not_found(),
{
    let mut v: Vec<u8> = Vec::new();
    v.push('4' as u8);
    v.push('0' as u8);
    v.push('4' as u8);
    v.push(' ' as u8);
    v.push('N' as u8);
    v.push('o' as u8);
    v.push('t' as u8);
    v.push(' ' as u8);
    v.push('F' as u8);
    v.push('o' as u8);
    v.push('u' as u8);
    v.push('n' as u8);
    v.push('d' as u8);
    assert(v@ =~= status_not_found());
    v
}

/// Builds the `422 Unprocessable Entity` status bytes.
fn status_unprocessable_bytes() -> (r: Vec<u8>)
    ensures
        r@ == status_unprocessable(),
{
    let mut v: Vec<u8> = Vec::new();
    v.push('4' as u8);
    v.push('2' as u8);
    v.push('2' as u8);
    v.push(' ' as u8);
    v.push('U' as u8);
    v.push('n' as u8);
    v.push('p' as u8);
    v.push('r' as u8);
    v.push('o' as u8);
    v.push('c' as u8);
    v.push('e' as u8);
    v.push('s' as u8);
    v.push('s' as u8);
    v.push('a' as u8);
    v.push('b' as u8);
    v.push('l' as u8);
    v.push('e' as u8);
    v.push(' ' as u8);
    v.push('E' as u8);
    v.push('n' as u8);
    v.push('t' as u8);
    v.push('i' as u8);
    v.push('t' as u8);
    v.push('y' as u8);
    assert(v@ =~= status_unprocessable());
    v
}

/// Builds the `501 Not Implemented` status bytes.
fn status_not_implemented_bytes() -> (r: Vec<u8>)
    ensures
        r@ == status_not_implemented(),
{
    let mut v: Vec<u8> = Vec::new();
    v.push('5' as u8);
    v.push('0' as u8);
    v.push('1' as u8);
    v.push(' ' as u8);
    v.push('N' as u8);
    v.push('o' as u8);
    v.push('t' as u8);
    v.push(' ' as u8);
    v.push('I' as u8);
    v.push('m' as u8);
    v.push('p' as u8);
    v.push('l' as u8);
    v.push('e' as u8);
    v.push('m' as u8);
    v.push('e' as u8);
    v.push('n' as u8);
    v.push('t' as u8);
    v.push('e' as u8);
    v.push('d' as u8);
    assert(v@ =~= status_not_implemented());
    v
}

/// Builds the `content-length` header name bytes.
fn content_length_name_bytes() -> (r: Vec<u8>)
    ensures
        r@ == content_length_name(),
{
    let mut v: Vec<u8> = Vec::new();
    v.push('c' as u8);
    v.push('o' as u8);
    v.push('n' as u8);
    v.push('t' as u8);
    v.push('e' as u8);
    v.push('n' as u8);
    v.push('t' as u8);
    v.push('-' as u8);
    v.push('l' as u8);
    v.push('e' as u8);
    v.push('n' as u8);
    v.push('g' as u8);
    v.push('t' as u8);
    v.push('h' as u8);
    assert(v@ =~= content_length_name());
    v
}

/// The decimal rendering of a number, most significant digit first, no
/// leading zeros.
pub open spec fn dec_of(n: nat) -> Seq<u8>
    decreases n,
{
    if n < 10 {
        seq![(48 + n) as u8]
    } else {
        dec_of(n / 10) + seq![(48 + n % 10) as u8]
    }
}

/// Appends the decimal rendering of `n`.
pub fn push_dec(v: &mut Vec<u8>, n: usize)
    ensures
        final(v)@ == old(v)@ + dec_of(n as nat),
    decreases n,
{
    if n < 10 {
        v.push(48 + n as u8);
        assert(v@ =~= old(v)@ + dec_of(n as nat));
    } else {
        assert(n / 10 < n && n / 10 >= 1) by (nonlinear_arith)
            requires
                n >= 10,
        ;
        push_dec(v, n / 10);
        v.push(48 + (n % 10) as u8);
        assert((n as nat) / 10 == (n / 10) as nat && (n as nat) % 10 == (n % 10) as nat);
        assert(v@ =~= old(v)@ + dec_of(n as nat));
    }
}

/// The `content-length` header pair for a body of `n` bytes.
pub open spec fn content_length_pair(n: nat) -> (Seq<u8>, Seq<u8>) {
    (content_length_name(), dec_of(n))
}

/// An empty-bodied success: `200 OK`, `content-length: 0`, no body.
pub open spec fn resp_ok_empty() -> ApiResponseModel {
    ApiResponseModel {
        status: status_ok(),
        headers: seq![content_length_pair(0)],
        body: Seq::empty(),
    }
}

/// A success carrying `body`, with its `content-length`.
pub open spec fn resp_ok_body(body: Seq<u8>) -> ApiResponseModel {
    ApiResponseModel {
        status: status_ok(),
        headers: seq![content_length_pair(body.len())],
        body: body,
    }
}

/// The empty-bodied not-found answer of the administrative routes, with its
/// `content-length: 0`.
pub open spec fn resp_not_found() -> ApiResponseModel {
    ApiResponseModel {
        status: status_not_found(),
        headers: seq![content_length_pair(0)],
        body: Seq::empty(),
    }
}

/// The client-error answer whose body is a diagnostic message.
pub open spec fn resp_unprocessable(message: Seq<u8>) -> ApiResponseModel {
    ApiResponseModel {
        status: status_unprocessable(),
        headers: seq![content_length_pair(message.len())],
        body: message,
    }
}

/// The empty-bodied signal that no mock matched, with its
/// `content-length: 0`.
pub open spec fn resp_not_implemented() -> ApiResponseModel {
    ApiResponseModel {
        status: status_not_implemented(),
        headers: seq![content_length_pair(0)],
        body: Seq::empty(),
    }
}

/// A matched mock's canned answer: its own status, `content-length` first,
/// then its declared headers verbatim, then its body verbatim.
pub open spec fn resp_from_mock(r: ResponseModel) -> ApiResponseModel {
    ApiResponseModel {
        status: r.status,
        headers: seq![content_length_pair(r.body.len())] + r.headers,
        body: r.body,
    }
}

/// Builds the `content-length: 0` header list of the empty-bodied answers.
fn zero_length_headers() -> (r: Vec<(Vec<u8>, Vec<u8>)>)
    ensures
        crate::request::headers_view(r@) == seq![content_length_pair(0)],
{
    let mut len_bytes: Vec<u8> = Vec::new();
    len_bytes.push(48);
    assert(len_bytes@ =~= dec_of(0));
    let mut headers: Vec<(Vec<u8>, Vec<u8>)> = Vec::new();
    headers.push((content_length_name_bytes(), len_bytes));
    assert(crate::request::headers_view(headers@) =~= seq![content_length_pair(0)]);
    headers
}

/// Builds `resp_ok_empty`.
pub fn make_ok_empty() -> (r: ApiResponse)
    ensures
        r@ == resp_ok_empty(),
{
    let r = ApiResponse {
        status: status_ok_bytes(),
        headers: zero_length_headers(),
        body: Vec::new(),
    };
    assert(r@.body =~= resp_ok_empty().body);
    r
}

/// Builds `resp_ok_body(body)`.
pub fn make_ok_body(body: Vec<u8>) -> (r: ApiResponse)
    ensures
        r@ == resp_ok_body(body@),
{
    let mut len_bytes: Vec<u8> = Vec::new();
    push_dec(&mut len_bytes, body.len());
    assert(len_bytes@ =~= dec_of(body@.len()));
    let mut headers: Vec<(Vec<u8>, Vec<u8>)> = Vec::new();
    headers.push((content_length_name_bytes(), len_bytes));
    let r = ApiResponse { status: status_ok_bytes(), headers, body };
    assert(r@.headers =~= resp_ok_body(r.body@).headers);
    r
}

/// Builds `resp_not_found`.
pub fn make_not_found() -> (r: ApiResponse)
    ensures
        r@ == resp_not_found(),
{
    let r = ApiResponse {
        status: status_not_found_bytes(),
        headers: zero_length_headers(),
        body: Vec::new(),
    };
    assert(r@.body =~= resp_not_found().body);
    r
}

/// Builds `resp_unprocessable(message)`.
pub fn make_unprocessable(message: Vec<u8>) -> (r: ApiResponse)
    ensures
        r@ == resp_unprocessable(message@),
{
    let mut len_bytes: Vec<u8> = Vec::new();
    push_dec(&mut len_bytes, message.len());
    assert(len_bytes@ =~= dec_of(message@.len()));
    let mut headers: Vec<(Vec<u8>, Vec<u8>)> = Vec::new();
    headers.push((content_length_name_bytes(), len_bytes));
    let r = ApiResponse { status: status_unprocessable_bytes(), headers, body: message };
    assert(r@.headers =~= resp_unprocessable(r.body@).headers);
    r
}

/// Builds `resp_not_implemented`.
pub fn make_not_implemented() -> (r: ApiResponse)
    ensures
        r@ == resp_not_implemented(),
{
    let r = ApiResponse {
        status: status_not_implemented_bytes(),
        headers: zero_length_headers(),
        body: Vec::new(),
    };
    assert(r@.body =~= resp_not_implemented().body);
    r
}

/// Builds `resp_from_mock` out of a copied canned response.
pub fn make_from_mock(m: crate::mock::MockResponse) -> (r: ApiResponse)
    ensures
        r@ == resp_from_mock(m@),
{
    let mut len_bytes: Vec<u8> = Vec::new();
    push_dec(&mut len_bytes, m.body.len());
    assert(len_bytes@ =~= dec_of(m.body@.len()));
    let mut headers: Vec<(Vec<u8>, Vec<u8>)> = Vec::new();
    headers.push((content_length_name_bytes(), len_bytes));
    let ghost first = headers@;
    let mut i: usize = 0;
    while i < m.headers.len()
        invariant
            0 <= i <= m.headers.len(),
            headers@.len() == i + 1,
            headers@[0].0@ == content_length_name(),
            headers@[0].1@ == dec_of(m.body@.len()),
            forall|j: int|
                1 <= j < i + 1 ==> (#[trigger] headers@[j]).0@ == m.headers@[j - 1].0@
                    && headers@[j].1@ == m.headers@[j - 1].1@,
        decreases m.headers.len() - i,
    {
        let name = crate::bytes::to_vec(m.headers[i].0.as_slice());
        let value = crate::bytes::to_vec(m.headers[i].1.as_slice());
        headers.push((name, value));
        i = i + 1;
    }
    let r = ApiResponse { status: m.status, headers, body: m.body };
    assert(r@.headers =~= resp_from_mock(m@).headers);
    r
}

} // verus!
