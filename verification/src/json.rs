//! The wire schema for mocks: a fixed JSON shape, written and read by this
//! module.
//!
//! A mock travels as one JSON object with the fields `id`, `method`, `path`,
//! `headers`, `body`, `response`, `hits` and `expected_hits`, in that order,
//! with no whitespace. A matcher is either a bare string (`Exact`), the
//! object `{"regex":"<pattern>"}` (`Regexp`), or the object
//! `{"missing":true}` (`Missing`). Strings escape the quote, the backslash
//! and control bytes as `\u00xx` and carry every other byte verbatim. The
//! reader accepts exactly what the writer emits, so a serialized mock
//! re-registers as the identical mock; anything else is rejected.

use vstd::prelude::*;

use crate::bytes::extend_bytes;
use crate::matcher::{Matcher, MatcherModel};
use crate::mock::{mock_headers_view, MockModel, MockResponse, RemoteMock, ResponseModel};
use crate::request::headers_view;
use crate::response::dec_of;

verus! {

/// The quote byte.
pub open spec fn q() -> u8 {
    '"' as u8
}

/// The backslash byte.
pub open spec fn bs() -> u8 {
    '\\' as u8
}

/// Bytes that a string must escape: the quote, the backslash, and control
/// bytes.
pub open spec fn needs_escape(b: u8) -> bool {
    b < 0x20 || b == q() || b == bs()
}

/// The lower-case hex digit for a nibble.
pub open spec fn hex_digit(d: u8) -> u8 {
    if d < 10 {
        (48 + d) as u8
    } else {
        (87 + d) as u8
    }
}

/// How one byte of a string is written: itself, or a `\u00xx` escape.
pub open spec fn esc_byte(b: u8) -> Seq<u8> {
    if needs_escape(b) {
        seq![bs(), 'u' as u8, '0' as u8, '0' as u8, hex_digit(b / 16), hex_digit(b % 16)]
    } else {
        seq![b]
    }
}

/// The written form of a string's contents.
pub open spec fn ser_str_body(s: Seq<u8>) -> Seq<u8>
    decreases s.len(),
{
    if s.len() == 0 {
        Seq::empty()
    } else {
        esc_byte(s[0]) + ser_str_body(s.skip(1))
    }
}

/// A full JSON string: quote, contents, quote.
pub open spec fn ser_string(s: Seq<u8>) -> Seq<u8> {
    seq![q()] + ser_str_body(s) + seq![q()]
}

/// Writing one more byte extends the written contents by that byte's form.
pub proof fn lemma_ser_str_body_snoc(s: Seq<u8>, i: int)
    requires
        0 <= i < s.len(),
    ensures
        ser_str_body(s.subrange(0, i + 1)) == ser_str_body(s.subrange(0, i)) + esc_byte(s[i]),
    decreases i,
{
    if i == 0 {
        let a = s.subrange(0, 1);
        assert(a.skip(1) =~= Seq::<u8>::empty());
        assert(a[0] == s[0] && a.len() == 1);
        assert(ser_str_body(a) == esc_byte(a[0]) + ser_str_body(a.skip(1)));
        assert(ser_str_body(a.skip(1)) == Seq::<u8>::empty());
        assert(ser_str_body(s.subrange(0, 0)) == Seq::<u8>::empty());
        assert(ser_str_body(a) =~= esc_byte(s[0]));
        assert(ser_str_body(s.subrange(0, 0)) + esc_byte(s[0]) =~= esc_byte(s[0]));
    } else {
        lemma_ser_str_body_snoc(s.skip(1), i - 1);
        let a = s.subrange(0, i + 1);
        let b = s.subrange(0, i);
        assert(a.skip(1) =~= s.skip(1).subrange(0, i));
        assert(b.skip(1) =~= s.skip(1).subrange(0, i - 1));
        assert(s.skip(1)[i - 1] == s[i]);
        assert(ser_str_body(a) == esc_byte(s[0]) + ser_str_body(s.skip(1).subrange(0, i)));
        assert(ser_str_body(b) == esc_byte(s[0]) + ser_str_body(s.skip(1).subrange(0, i - 1)));
        assert(ser_str_body(a) =~= ser_str_body(b) + esc_byte(s[i]));
    }
}

/// The literal `{"id":` of the wire schema.
pub open spec fn obj_id() -> Seq<u8> {
    seq![
        '{' as u8,
        '"' as u8,
        'i' as u8,
        'd' as u8,
        '"' as u8,
        ':' as u8,
    ]
}

/// Builds `obj_id` as bytes.
pub fn obj_id_bytes() -> (r: Vec<u8>)
    ensures
        r@ == obj_id(),
{
    let mut v: Vec<u8> = Vec::new();
    v.push('{' as u8);
    v.push('"' as u8);
    v.push('i' as u8);
    v.push('d' as u8);
    v.push('"' as u8);
    v.push(':' as u8);
    assert(v@ =~= obj_id());
    v
}

/// The literal `,"method":` of the wire schema.
pub open spec fn key_method() -> Seq<u8> {
    seq![
        ',' as u8,
        '"' as u8,
        'm' as u8,
        'e' as u8,
        't' as u8,
        'h' as u8,
        'o' as u8,
        'd' as u8,
        '"' as u8,
        ':' as u8,
    ]
}

/// Builds `key_method` as bytes.
pub fn key_method_bytes() -> (r: Vec<u8>)
    ensures
        r@ == key_method(),
{
    let mut v: Vec<u8> = Vec::new();
    v.push(',' as u8);
    v.push('"' as u8);
    v.push('m' as u8);
    v.push('e' as u8);
    v.push('t' as u8);
    v.push('h' as u8);
    v.push('o' as u8);
    v.push('d' as u8);
    v.push('"' as u8);
    v.push(':' as u8);
    assert(v@ =~= key_method());
    v
}

/// The literal `,"path":` of the wire schema.
pub open spec fn key_path() -> Seq<u8> {
    seq![
        ',' as u8,
        '"' as u8,
        'p' as u8,
        'a' as u8,
        't' as u8,
        'h' as u8,
        '"' as u8,
        ':' as u8,
    ]
}

/// Builds `key_path` as bytes.
pub fn key_path_bytes() -> (r: Vec<u8>)
    ensures
        r@ == key_path(),
{
    let mut v: Vec<u8> = Vec::new();
    v.push(',' as u8);
    v.push('"' as u8);
    v.push('p' as u8);
    v.push('a' as u8);
    v.push('t' as u8);
    v.push('h' as u8);
    v.push('"' as u8);
    v.push(':' as u8);
    assert(v@ =~= key_path());
    v
}

/// The literal `,"headers":` of the wire schema.
pub open spec fn key_headers() -> Seq<u8> {
    seq![
        ',' as u8,
        '"' as u8,
        'h' as u8,
        'e' as u8,
        'a' as u8,
        'd' as u8,
        'e' as u8,
        'r' as u8,
        's' as u8,
        '"' as u8,
        ':' as u8,
    ]
}

/// Builds `key_headers` as bytes.
pub fn key_headers_bytes() -> (r: Vec<u8>)
    ensures
        r@ == key_headers(),
{
    let mut v: Vec<u8> = Vec::new();
    v.push(',' as u8);
    v.push('"' as u8);
    v.push('h' as u8);
    v.push('e' as u8);
    v.push('a' as u8);
    v.push('d' as u8);
    v.push('e' as u8);
    v.push('r' as u8);
    v.push('s' as u8);
    v.push('"' as u8);
    v.push(':' as u8);
    assert(v@ =~= key_headers());
    v
}

/// The literal `,"body":` of the wire schema.
pub open spec fn key_body() -> Seq<u8> {
    seq![
        ',' as u8,
        '"' as u8,
        'b' as u8,
        'o' as u8,
        'd' as u8,
        'y' as u8,
        '"' as u8,
        ':' as u8,
    ]
}

/// Builds `key_body` as bytes.
pub fn key_body_bytes() -> (r: Vec<u8>)
    ensures
        r@ == key_body(),
{
    let mut v: Vec<u8> = Vec::new();
    v.push(',' as u8);
    v.push('"' as u8);
    v.push('b' as u8);
    v.push('o' as u8);
    v.push('d' as u8);
    v.push('y' as u8);
    v.push('"' as u8);
    v.push(':' as u8);
    assert(v@ =~= key_body());
    v
}

/// The literal `,"response":` of the wire schema.
pub open spec fn key_response() -> Seq<u8> {
    seq![
        ',' as u8,
        '"' as u8,
        'r' as u8,
        'e' as u8,
        's' as u8,
        'p' as u8,
        'o' as u8,
        'n' as u8,
        's' as u8,
        'e' as u8,
        '"' as u8,
        ':' as u8,
    ]
}

/// Builds `key_response` as bytes.
pub fn key_response_bytes() -> (r: Vec<u8>)
    ensures
        r@ == key_response(),
{
    let mut v: Vec<u8> = Vec::new();
    v.push(',' as u8);
    v.push('"' as u8);
    v.push('r' as u8);
    v.push('e' as u8);
    v.push('s' as u8);
    v.push('p' as u8);
    v.push('o' as u8);
    v.push('n' as u8);
    v.push('s' as u8);
    v.push('e' as u8);
    v.push('"' as u8);
    v.push(':' as u8);
    assert(v@ =~= key_response());
    v
}

/// The literal `,"hits":` of the wire schema.
pub open spec fn key_hits() -> Seq<u8> {
    seq![
        ',' as u8,
        '"' as u8,
        'h' as u8,
        'i' as u8,
        't' as u8,
        's' as u8,
        '"' as u8,
        ':' as u8,
    ]
}

/// Builds `key_hits` as bytes.
pub fn key_hits_bytes() -> (r: Vec<u8>)
    ensures
        r@ == key_hits(),
{
    let mut v: Vec<u8> = Vec::new();
    v.push(',' as u8);
    v.push('"' as u8);
    v.push('h' as u8);
    v.push('i' as u8);
    v.push('t' as u8);
    v.push('s' as u8);
    v.push('"' as u8);
    v.push(':' as u8);
    assert(v@ =~= key_hits());
    v
}

/// The literal `,"expected_hits":` of the wire schema.
pub open spec fn key_expected() -> Seq<u8> {
    seq![
        ',' as u8,
        '"' as u8,
        'e' as u8,
        'x' as u8,
        'p' as u8,
        'e' as u8,
        'c' as u8,
        't' as u8,
        'e' as u8,
        'd' as u8,
        '_' as u8,
        'h' as u8,
        'i' as u8,
        't' as u8,
        's' as u8,
        '"' as u8,
        ':' as u8,
    ]
}

/// Builds `key_expected` as bytes.
pub fn key_expected_bytes() -> (r: Vec<u8>)
    ensures
        r@ == key_expected(),
{
    let mut v: Vec<u8> = Vec::new();
    v.push(',' as u8);
    v.push('"' as u8);
    v.push('e' as u8);
    v.push('x' as u8);
    v.push('p' as u8);
    v.push('e' as u8);
    v.push('c' as u8);
    v.push('t' as u8);
    v.push('e' as u8);
    v.push('d' as u8);
    v.push('_' as u8);
    v.push('h' as u8);
    v.push('i' as u8);
    v.push('t' as u8);
    v.push('s' as u8);
    v.push('"' as u8);
    v.push(':' as u8);
    assert(v@ =~= key_expected());
    v
}

/// The literal `{"status":` of the wire schema.
pub open spec fn obj_status() -> Seq<u8> {
    seq![
        '{' as u8,
        '"' as u8,
        's' as u8,
        't' as u8,
        'a' as u8,
        't' as u8,
        'u' as u8,
        's' as u8,
        '"' as u8,
        ':' as u8,
    ]
}

/// Builds `obj_status` as bytes.
pub fn obj_status_bytes() -> (r: Vec<u8>)
    ensures
        r@ == obj_status(),
{
    let mut v: Vec<u8> = Vec::new();
    v.push('{' as u8);
    v.push('"' as u8);
    v.push('s' as u8);
    v.push('t' as u8);
    v.push('a' as u8);
    v.push('t' as u8);
    v.push('u' as u8);
    v.push('s' as u8);
    v.push('"' as u8);
    v.push(':' as u8);
    assert(v@ =~= obj_status());
    v
}

/// The literal `{"regex":` of the wire schema.
pub open spec fn obj_regex() -> Seq<u8> {
    seq![
        '{' as u8,
        '"' as u8,
        'r' as u8,
        'e' as u8,
        'g' as u8,
        'e' as u8,
        'x' as u8,
        '"' as u8,
        ':' as u8,
    ]
}

/// Builds `obj_regex` as bytes.
pub fn obj_regex_bytes() -> (r: Vec<u8>)
    ensures
        r@ == obj_regex(),
{
    let mut v: Vec<u8> = Vec::new();
    v.push('{' as u8);
    v.push('"' as u8);
    v.push('r' as u8);
    v.push('e' as u8);
    v.push('g' as u8);
    v.push('e' as u8);
    v.push('x' as u8);
    v.push('"' as u8);
    v.push(':' as u8);
    assert(v@ =~= obj_regex());
    v
}

/// The literal `{"missing":true}` of the wire schema.
pub open spec fn lit_missing() -> Seq<u8> {
    seq![
        '{' as u8,
        '"' as u8,
        'm' as u8,
        'i' as u8,
        's' as u8,
        's' as u8,
        'i' as u8,
        'n' as u8,
        'g' as u8,
        '"' as u8,
        ':' as u8,
        't' as u8,
        'r' as u8,
        'u' as u8,
        'e' as u8,
        '}' as u8,
    ]
}

/// Builds `lit_missing` as bytes.
pub fn lit_missing_bytes() -> (r: Vec<u8>)
    ensures
        r@ == lit_missing(),
{
    let mut v: Vec<u8> = Vec::new();
    v.push('{' as u8);
    v.push('"' as u8);
    v.push('m' as u8);
    v.push('i' as u8);
    v.push('s' as u8);
    v.push('s' as u8);
    v.push('i' as u8);
    v.push('n' as u8);
    v.push('g' as u8);
    v.push('"' as u8);
    v.push(':' as u8);
    v.push('t' as u8);
    v.push('r' as u8);
    v.push('u' as u8);
    v.push('e' as u8);
    v.push('}' as u8);
    assert(v@ =~= lit_missing());
    v
}
/// The written items of a list of header expectations.
pub open spec fn ser_expectation_items(hs: Seq<(Seq<u8>, MatcherModel)>) -> Seq<Seq<u8>> {
    hs.map_values(|p: (Seq<u8>, MatcherModel)| ser_header_expectation(p))
}

/// The written items of a list of response headers.
pub open spec fn ser_pair_items(hs: Seq<(Seq<u8>, Seq<u8>)>) -> Seq<Seq<u8>> {
    hs.map_values(|p: (Seq<u8>, Seq<u8>)| ser_string_pair(p))
}

/// A comma-separated join of already-written items.
pub open spec fn join_comma(items: Seq<Seq<u8>>) -> Seq<u8>
    decreases items.len(),
{
    if items.len() == 0 {
        Seq::empty()
    } else {
        items[0] + join_tail(items.skip(1))
    }
}

/// The continuation of a join: each further item after a comma.
pub open spec fn join_tail(items: Seq<Seq<u8>>) -> Seq<u8>
    decreases items.len(),
{
    if items.len() == 0 {
        Seq::empty()
    } else {
        seq![',' as u8] + items[0] + join_tail(items.skip(1))
    }
}

/// A JSON array around a join.
pub open spec fn ser_list(items: Seq<Seq<u8>>) -> Seq<u8> {
    seq!['[' as u8] + join_comma(items) + seq![']' as u8]
}

/// Joining one more item appends a comma and the item.
pub proof fn lemma_join_tail_snoc(items: Seq<Seq<u8>>, i: int)
    requires
        0 <= i < items.len(),
    ensures
        join_tail(items.subrange(0, i + 1)) == join_tail(items.subrange(0, i)) + seq![',' as u8]
            + items[i],
    decreases i,
{
    if i == 0 {
        let a = items.subrange(0, 1);
        assert(a.skip(1) =~= Seq::<Seq<u8>>::empty());
        assert(a[0] == items[0] && a.len() == 1);
        assert(join_tail(a) == seq![',' as u8] + a[0] + join_tail(a.skip(1)));
        assert(join_tail(a.skip(1)) == Seq::<u8>::empty());
        assert(join_tail(items.subrange(0, 0)) == Seq::<u8>::empty());
        assert(join_tail(a) =~= seq![',' as u8] + items[0]);
        assert(join_tail(items.subrange(0, 0)) + seq![',' as u8] + items[0] =~= seq![',' as u8]
            + items[0]);
    } else {
        lemma_join_tail_snoc(items.skip(1), i - 1);
        let a = items.subrange(0, i + 1);
        let b = items.subrange(0, i);
        assert(a.skip(1) =~= items.skip(1).subrange(0, i));
        assert(b.skip(1) =~= items.skip(1).subrange(0, i - 1));
        assert(items.skip(1)[i - 1] == items[i]);
        assert(join_tail(a) =~= join_tail(b) + seq![',' as u8] + items[i]);
    }
}

/// Joining one more item onto a comma-join.
pub proof fn lemma_join_comma_snoc(items: Seq<Seq<u8>>, i: int)
    requires
        0 <= i < items.len(),
    ensures
        i == 0 ==> join_comma(items.subrange(0, 1)) == items[0],
        i > 0 ==> join_comma(items.subrange(0, i + 1)) == join_comma(items.subrange(0, i)) + seq![
            ',' as u8,
        ] + items[i],
{
    if i == 0 {
        let a = items.subrange(0, 1);
        assert(a.skip(1) =~= Seq::<Seq<u8>>::empty());
        assert(join_comma(a) =~= items[0]);
    } else {
        let a = items.subrange(0, i + 1);
        let b = items.subrange(0, i);
        assert(a.skip(1) =~= items.skip(1).subrange(0, i));
        assert(b.skip(1) =~= items.skip(1).subrange(0, i - 1));
        lemma_join_tail_snoc(items.skip(1), i - 1);
        assert(items.skip(1)[i - 1] == items[i]);
        assert(a[0] == items[0] && b[0] == items[0]);
        assert(join_comma(a) =~= join_comma(b) + seq![',' as u8] + items[i]);
    }
}

/// The written form of a matcher: a bare string, a tagged pattern object, or
/// the absence marker.
pub open spec fn ser_matcher(m: MatcherModel) -> Seq<u8> {
    match m {
        MatcherModel::Exact(s) => ser_string(s),
        MatcherModel::Regexp(p) => obj_regex() + ser_string(p) + seq!['}' as u8],
        MatcherModel::Missing => lit_missing(),
    }
}

/// The written form of one header expectation `["name",matcher]`.
pub open spec fn ser_header_expectation(p: (Seq<u8>, MatcherModel)) -> Seq<u8> {
    seq!['[' as u8] + ser_string(p.0) + seq![',' as u8] + ser_matcher(p.1) + seq![']' as u8]
}

/// The written form of one response header `["name","value"]`.
pub open spec fn ser_string_pair(p: (Seq<u8>, Seq<u8>)) -> Seq<u8> {
    seq!['[' as u8] + ser_string(p.0) + seq![',' as u8] + ser_string(p.1) + seq![']' as u8]
}

/// The written form of a canned response.
pub open spec fn ser_response(r: ResponseModel) -> Seq<u8> {
    obj_status() + (ser_string(r.status) + (key_headers() + (ser_list(
        r.headers.map_values(|p: (Seq<u8>, Seq<u8>)| ser_string_pair(p)),
    ) + (key_body() + (ser_string(r.body) + seq!['}' as u8])))))
}

/// The written form of a whole mock record.
pub open spec fn ser_mock(m: MockModel) -> Seq<u8> {
    obj_id() + (ser_string(m.id) + (key_method() + (ser_string(m.method) + (key_path() + (
    ser_matcher(m.path) + (key_headers() + (ser_list(
        m.headers.map_values(|p: (Seq<u8>, MatcherModel)| ser_header_expectation(p)),
    ) + (key_body() + (ser_matcher(m.body) + (key_response() + (ser_response(m.response) + (
    key_hits() + (dec_of(m.hits as nat) + (key_expected() + (dec_of(m.expected_hits as nat)
        + seq!['}' as u8])))))))))))))))
}

/// Appends the written contents of a string.
pub fn push_str_body(v: &mut Vec<u8>, s: &[u8])
    ensures
        final(v)@ == old(v)@ + ser_str_body(s@),
{
    let mut i: usize = 0;
    while i < s.len()
        invariant
            0 <= i <= s.len(),
            v@ == old(v)@ + ser_str_body(s@.subrange(0, i as int)),
        decreases s.len() - i,
    {
        let b = s[i];
        let ghost v0 = v@;
        if b < 0x20 || b == '"' as u8 || b == '\\' as u8 {
            v.push('\\' as u8);
            v.push('u' as u8);
            v.push('0' as u8);
            v.push('0' as u8);
            let hi = b / 16;
            let lo = b % 16;
            v.push(if hi < 10 { 48 + hi } else { 87 + hi });
            v.push(if lo < 10 { 48 + lo } else { 87 + lo });
            assert(v@ =~= v0 + esc_byte(s@[i as int]));
        } else {
            v.push(b);
            assert(v@ =~= v0 + esc_byte(s@[i as int]));
        }
        proof {
            lemma_ser_str_body_snoc(s@, i as int);
            assert(v@ =~= old(v)@ + ser_str_body(s@.subrange(0, i as int + 1)));
        }
        i = i + 1;
    }
    assert(s@.subrange(0, s@.len() as int) =~= s@);
}

/// Appends a full JSON string.
pub fn push_string(v: &mut Vec<u8>, s: &[u8])
    ensures
        final(v)@ == old(v)@ + ser_string(s@),
{
    v.push('"' as u8);
    push_str_body(v, s);
    v.push('"' as u8);
    assert(v@ =~= old(v)@ + ser_string(s@));
}

/// Appends the written form of a matcher.
pub fn push_matcher(v: &mut Vec<u8>, m: &Matcher)
    ensures
        final(v)@ == old(v)@ + ser_matcher(m@),
{
    match m {
        Matcher::Exact(s) => {
            push_string(v, s.as_slice());
        },
        Matcher::Regexp(p) => {
            let lit = obj_regex_bytes();
            extend_bytes(v, lit.as_slice());
            push_string(v, p.as_slice());
            v.push('}' as u8);
            assert(v@ =~= old(v)@ + ser_matcher(m@));
        },
        Matcher::Missing => {
            let lit = lit_missing_bytes();
            extend_bytes(v, lit.as_slice());
        },
    }
}

/// Appends the written form of the header expectations.
fn push_header_expectations(v: &mut Vec<u8>, hs: &Vec<(Vec<u8>, Matcher)>)
    ensures
        final(v)@ == old(v)@ + ser_list(
            mock_headers_view(hs@).map_values(|p: (Seq<u8>, MatcherModel)| ser_header_expectation(p)),
        ),
{
    let ghost items = mock_headers_view(hs@).map_values(
        |p: (Seq<u8>, MatcherModel)| ser_header_expectation(p),
    );
    v.push('[' as u8);
    let ghost base = v@;
    assert(join_comma(items.subrange(0, 0)) == Seq::<u8>::empty());
    assert(v@ =~= base + join_comma(items.subrange(0, 0)));
    let mut i: usize = 0;
    while i < hs.len()
        invariant
            0 <= i <= hs.len(),
            items.len() == hs@.len(),
            items == mock_headers_view(hs@).map_values(
                |p: (Seq<u8>, MatcherModel)| ser_header_expectation(p),
            ),
            v@ == base + join_comma(items.subrange(0, i as int)),
        decreases hs.len() - i,
    {
        let ghost v0 = v@;
        if i > 0 {
            v.push(',' as u8);
        }
        v.push('[' as u8);
        push_string(v, hs[i].0.as_slice());
        v.push(',' as u8);
        push_matcher(v, &hs[i].1);
        v.push(']' as u8);
        proof {
            assert(items[i as int] == ser_header_expectation(
                (hs@[i as int].0@, hs@[i as int].1@),
            ));
            lemma_join_comma_snoc(items, i as int);
            if i == 0 {
                assert(v@ =~= v0 + items[0]);
                assert(v@ =~= base + join_comma(items.subrange(0, 1)));
            } else {
                assert(v@ =~= v0 + seq![',' as u8] + items[i as int]);
                assert(v@ =~= base + join_comma(items.subrange(0, i as int + 1)));
            }
        }
        i = i + 1;
    }
    assert(items.subrange(0, items.len() as int) =~= items);
    v.push(']' as u8);
    assert(v@ =~= old(v)@ + ser_list(items));
}

/// Appends the written form of the response headers.
fn push_string_pairs(v: &mut Vec<u8>, hs: &Vec<(Vec<u8>, Vec<u8>)>)
    ensures
        final(v)@ == old(v)@ + ser_list(
            headers_view(hs@).map_values(|p: (Seq<u8>, Seq<u8>)| ser_string_pair(p)),
        ),
{
    let ghost items = headers_view(hs@).map_values(|p: (Seq<u8>, Seq<u8>)| ser_string_pair(p));
    v.push('[' as u8);
    let ghost base = v@;
    assert(join_comma(items.subrange(0, 0)) == Seq::<u8>::empty());
    assert(v@ =~= base + join_comma(items.subrange(0, 0)));
    let mut i: usize = 0;
    while i < hs.len()
        invariant
            0 <= i <= hs.len(),
            items.len() == hs@.len(),
            items == headers_view(hs@).map_values(|p: (Seq<u8>, Seq<u8>)| ser_string_pair(p)),
            v@ == base + join_comma(items.subrange(0, i as int)),
        decreases hs.len() - i,
    {
        let ghost v0 = v@;
        if i > 0 {
            v.push(',' as u8);
        }
        v.push('[' as u8);
        push_string(v, hs[i].0.as_slice());
        v.push(',' as u8);
        push_string(v, hs[i].1.as_slice());
        v.push(']' as u8);
        proof {
            assert(items[i as int] == ser_string_pair((hs@[i as int].0@, hs@[i as int].1@)));
            lemma_join_comma_snoc(items, i as int);
            if i == 0 {
                assert(v@ =~= v0 + items[0]);
                assert(v@ =~= base + join_comma(items.subrange(0, 1)));
            } else {
                assert(v@ =~= v0 + seq![',' as u8] + items[i as int]);
                assert(v@ =~= base + join_comma(items.subrange(0, i as int + 1)));
            }
        }
        i = i + 1;
    }
    assert(items.subrange(0, items.len() as int) =~= items);
    v.push(']' as u8);
    assert(v@ =~= old(v)@ + ser_list(items));
}

/// Appends the written form of a canned response.
fn push_response(v: &mut Vec<u8>, r: &MockResponse)
    ensures
        final(v)@ == old(v)@ + ser_response(r@),
{
    let lit = obj_status_bytes();
    extend_bytes(v, lit.as_slice());
    push_string(v, r.status.as_slice());
    let lit = key_headers_bytes();
    extend_bytes(v, lit.as_slice());
    push_string_pairs(v, &r.headers);
    let lit = key_body_bytes();
    extend_bytes(v, lit.as_slice());
    push_string(v, r.body.as_slice());
    v.push('}' as u8);
    assert(v@ =~= old(v)@ + ser_response(r@));
}

/// Writes a mock as its wire record.
#[verifier::rlimit(100)]
#[verifier::spinoff_prover]
pub fn serialize_mock(m: &RemoteMock) -> (r: Vec<u8>)
    ensures
        r@ == ser_mock(m@),
{
    let mut v: Vec<u8> = Vec::new();
    let lit = obj_id_bytes();
    extend_bytes(&mut v, lit.as_slice());
    push_string(&mut v, m.id.as_slice());
    let lit = key_method_bytes();
    extend_bytes(&mut v, lit.as_slice());
    push_string(&mut v, m.method.as_slice());
    let lit = key_path_bytes();
    extend_bytes(&mut v, lit.as_slice());
    push_matcher(&mut v, &m.path);
    let lit = key_headers_bytes();
    extend_bytes(&mut v, lit.as_slice());
    push_header_expectations(&mut v, &m.headers);
    let lit = key_body_bytes();
    extend_bytes(&mut v, lit.as_slice());
    push_matcher(&mut v, &m.body);
    let lit = key_response_bytes();
    extend_bytes(&mut v, lit.as_slice());
    push_response(&mut v, &m.response);
    let lit = key_hits_bytes();
    extend_bytes(&mut v, lit.as_slice());
    crate::response::push_dec(&mut v, m.hits);
    let lit = key_expected_bytes();
    extend_bytes(&mut v, lit.as_slice());
    crate::response::push_dec(&mut v, m.expected_hits);
    v.push('}' as u8);
    assert(v@ =~= ser_mock(m@));
    v
}

/// An ASCII decimal digit.
pub open spec fn is_digit(b: u8) -> bool {
    48 <= b && b <= 57
}

/// Writing one more byte after a written string extends it by that byte's
/// form.
proof fn lemma_ser_str_body_push(prev: Seq<u8>, b: u8)
    ensures
        ser_str_body(prev.push(b)) == ser_str_body(prev) + esc_byte(b),
{
    let s = prev.push(b);
    assert(s.subrange(0, s.len() - 1) =~= prev);
    assert(s.subrange(0, s.len() as int) =~= s);
    lemma_ser_str_body_snoc(s, s.len() - 1);
}

/// Joining one more item onto a non-empty join appends a comma and the item.
proof fn lemma_join_comma_push(items: Seq<Seq<u8>>, x: Seq<u8>)
    ensures
        items.len() == 0 ==> join_comma(items.push(x)) == x,
        items.len() > 0 ==> join_comma(items.push(x)) == join_comma(items) + seq![',' as u8] + x,
{
    let s = items.push(x);
    assert(s.subrange(0, s.len() - 1) =~= items);
    assert(s.subrange(0, s.len() as int) =~= s);
    lemma_join_comma_snoc(s, s.len() - 1);
    if items.len() == 0 {
        assert(join_comma(s.subrange(0, 1)) == s[0]);
        assert(s.subrange(0, 1) =~= s);
    }
}

/// The first byte of a written byte: never a quote, and the backslash
/// exactly when the byte is escaped.
proof fn lemma_esc_byte_first(b: u8)
    ensures
        esc_byte(b).len() >= 1,
        esc_byte(b)[0] != q(),
        needs_escape(b) ==> esc_byte(b)[0] == bs() && esc_byte(b).len() == 6,
        !needs_escape(b) ==> esc_byte(b)[0] == b && esc_byte(b).len() == 1,
{
}

/// Written contents align along a shared stream: when the written form of
/// `out` is a prefix of the written form of `s` followed by the closing
/// quote and a tail, `out` is a prefix of `s` and the stream continues with
/// the written form of what remains of `s`.
proof fn lemma_body_prefix_align(out: Seq<u8>, s: Seq<u8>, tail: Seq<u8>)
    requires
        ser_str_body(out).len() <= ser_str_body(s).len() + 1 + tail.len(),
        ser_str_body(out) == (ser_str_body(s) + (seq![q()] + tail)).subrange(
            0,
            ser_str_body(out).len() as int,
        ),
    ensures
        out.len() <= s.len(),
        out == s.subrange(0, out.len() as int),
        (ser_str_body(s) + (seq![q()] + tail)).skip(ser_str_body(out).len() as int)
            == ser_str_body(s.skip(out.len() as int)) + (seq![q()] + tail),
    decreases out.len(),
{
    let full = ser_str_body(s) + (seq![q()] + tail);
    if out.len() == 0 {
        assert(out =~= s.subrange(0, 0));
        assert(full.skip(0) =~= full);
        assert(s.skip(0) =~= s);
    } else {
        assert(ser_str_body(out) == esc_byte(out[0]) + ser_str_body(out.skip(1)));
        lemma_esc_byte_first(out[0]);
        assert(ser_str_body(out)[0] == esc_byte(out[0])[0]);
        assert(full[0] == ser_str_body(out)[0]);
        if s.len() == 0 {
            assert(full =~= seq![q()] + tail);
            assert(full[0] == q());
            assert(false);
        }
        assert(ser_str_body(s) == esc_byte(s[0]) + ser_str_body(s.skip(1)));
        lemma_esc_byte_first(s[0]);
        assert(full[0] == esc_byte(s[0])[0]);
        if needs_escape(out[0]) != needs_escape(s[0]) {
            assert(false);
        }
        let step: int = if needs_escape(out[0]) {
            6
        } else {
            1
        };
        if needs_escape(out[0]) {
            assert forall|t: int| 0 <= t < 6 implies esc_byte(out[0])[t] == esc_byte(s[0])[t] by {
                assert(ser_str_body(out)[t] == esc_byte(out[0])[t]);
                assert(full[t] == esc_byte(s[0])[t]);
                assert(ser_str_body(out)[t] == full[t]);
            }
            assert(esc_byte(out[0]) =~= esc_byte(s[0]));
            let a1 = out[0];
            let a2 = s[0];
            assert(hex_digit(a1 / 16) == hex_digit(a2 / 16) && hex_digit(a1 % 16) == hex_digit(
                a2 % 16,
            ));
            assert(a1 / 16 < 16 && a1 % 16 < 16 && a2 / 16 < 16 && a2 % 16 < 16) by (bit_vector);
            assert(a1 / 16 == a2 / 16 && a1 % 16 == a2 % 16);
            assert(a1 == a2) by (bit_vector)
                requires
                    a1 / 16 == a2 / 16 && a1 % 16 == a2 % 16,
            ;
        }
        assert(out[0] == s[0]);
        let full1 = ser_str_body(s.skip(1)) + (seq![q()] + tail);
        assert(full.skip(step) =~= full1);
        assert(ser_str_body(out.skip(1)).len() == ser_str_body(out).len() - step);
        assert(forall|t: int|
            0 <= t < ser_str_body(out.skip(1)).len() ==> ser_str_body(out.skip(1))[t]
                == ser_str_body(out)[t + step]);
        assert(ser_str_body(out.skip(1)) =~= full1.subrange(
            0,
            ser_str_body(out.skip(1)).len() as int,
        ));
        lemma_body_prefix_align(out.skip(1), s.skip(1), tail);
        assert(out.len() <= s.len());
        assert(out =~= s.subrange(0, out.len() as int)) by {
            assert(forall|t: int|
                1 <= t < out.len() ==> out[t] == out.skip(1)[t - 1] && s.skip(1).subrange(
                    0,
                    out.len() - 1,
                )[t - 1] == s[t]);
        }
        assert(s.skip(1).skip(out.len() - 1) =~= s.skip(out.len() as int));
        assert(full.skip(ser_str_body(out).len() as int) =~= full1.skip(
            ser_str_body(out.skip(1)).len() as int,
        ));
    }
}

/// At a point inside a written string where the contents read so far are
/// exactly `out`, what remains of the stream is the written form of what
/// remains of `s`, the closing quote, then the bytes after the string.
proof fn lemma_string_scan_state(input: Seq<u8>, i: int, k: int, out: Seq<u8>, s: Seq<u8>)
    requires
        0 <= i,
        i + 1 <= k <= input.len(),
        i + ser_string(s).len() <= input.len(),
        input.subrange(i, i + ser_string(s).len()) == ser_string(s),
        input.subrange(i + 1, k) == ser_str_body(out),
    ensures
        out.len() <= s.len(),
        out == s.subrange(0, out.len() as int),
        input.skip(k) == ser_str_body(s.skip(out.len() as int)) + (seq![q()] + input.skip(
            i + ser_string(s).len(),
        )),
    decreases 0int,
{
    let tail = input.skip(i + ser_string(s).len());
    let full = ser_str_body(s) + (seq![q()] + tail);
    assert(ser_str_body(out).len() == k - (i + 1));
    assert(input.skip(i) =~= ser_string(s) + tail);
    assert(input.skip(i + 1) =~= (ser_string(s) + tail).skip(1));
    assert((ser_string(s) + tail).skip(1) =~= full);
    assert(input.skip(i + 1) == full);
    assert(ser_str_body(out) =~= full.subrange(0, ser_str_body(out).len() as int));
    lemma_body_prefix_align(out, s, tail);
    assert(input.skip(k) =~= full.skip(ser_str_body(out).len() as int));
}

/// A written number never begins with a zero digit unless it is zero.
proof fn lemma_dec_first_digit(n: nat)
    ensures
        n >= 1 ==> dec_of(n)[0] != 48,
    decreases n,
{
    if n >= 10 {
        lemma_dec_first_digit(n / 10);
        lemma_dec_digits(n / 10);
        assert(dec_of(n)[0] == dec_of(n / 10)[0]);
    }
}

/// Reading one more digit of a written number keeps the value a prefix of
/// the whole: the extended value still lies below the number written.
proof fn lemma_dec_prefix_step(a: nat, c: u8, n: nat)
    requires
        a >= 1,
        is_digit(c),
        dec_of(a).len() + 1 <= dec_of(n).len(),
        dec_of(a) + seq![c] == dec_of(n).subrange(0, dec_of(a).len() as int + 1),
    ensures
        a * 10 + (c - 48) <= n,
        dec_of((a * 10 + (c - 48)) as nat) == dec_of(a) + seq![c],
    decreases n,
{
    lemma_dec_digits(a);
    let m = (a * 10 + (c - 48)) as nat;
    assert(m >= 10);
    assert(m / 10 == a && m % 10 == (c - 48)) by (nonlinear_arith)
        requires
            m == a * 10 + (c - 48),
            a >= 1,
            0 <= c - 48 <= 9,
    ;
    assert(dec_of(m) == dec_of(m / 10) + seq![(48 + m % 10) as u8]);
    assert((48 + m % 10) as u8 == c);
    assert(dec_of(m) =~= dec_of(a) + seq![c]);
    if n < 10 {
        assert(dec_of(n).len() == 1);
        assert(false);
    }
    assert(dec_of(n) == dec_of(n / 10) + seq![(48 + n % 10) as u8]);
    lemma_dec_digits(n / 10);
    assert(n / 10 < n);
    if dec_of(a).len() + 1 <= dec_of(n / 10).len() {
        assert(dec_of(n).subrange(0, dec_of(n / 10).len() as int) =~= dec_of(n / 10));
        assert(dec_of(a) + seq![c] =~= dec_of(n / 10).subrange(0, dec_of(a).len() as int + 1));
        lemma_dec_prefix_step(a, c, n / 10);
        assert(n / 10 <= n);
    } else {
        assert(dec_of(a).len() + 1 == dec_of(n).len());
        assert(dec_of(a).len() == dec_of(n / 10).len());
        assert(dec_of(a) =~= dec_of(n / 10)) by {
            assert(forall|t: int|
                0 <= t < dec_of(a).len() ==> (dec_of(a) + seq![c])[t] == dec_of(a)[t]
                    && dec_of(n)[t] == dec_of(n / 10)[t]);
        }
        lemma_dec_injective(a, n / 10);
        assert((dec_of(a) + seq![c])[dec_of(a).len() as int] == c);
        assert(dec_of(n)[dec_of(a).len() as int] == (48 + n % 10) as u8);
        assert(c == (48 + n % 10) as u8);
        vstd::arithmetic::div_mod::lemma_fundamental_div_mod(n as int, 10);
        assert(a * 10 + (c - 48) == n);
    }
}

/// Consumes `lit` at position `i`, or reports a mismatch; when the input at
/// `i` does carry `lit`, consuming succeeds.
fn eat(input: &[u8], i: usize, lit: &[u8]) -> (r: Option<usize>)
    requires
        i <= input.len(),
    ensures
        r matches Some(j) ==> i <= j <= input.len() && j == i + lit@.len() && input@.subrange(
            i as int,
            j as int,
        ) == lit@,
        (i + lit@.len() <= input@.len() && input@.subrange(i as int, i + lit@.len()) == lit@)
            ==> (r matches Some(j) && j == i + lit@.len()),
{
    if input.len() - i < lit.len() {
        return None;
    }
    let mut k: usize = 0;
    while k < lit.len()
        invariant
            i + lit@.len() <= input@.len(),
            input@.len() <= usize::MAX,
            0 <= k <= lit@.len(),
            forall|t: int| 0 <= t < k ==> input@[i + t] == lit@[t],
        decreases lit.len() - k,
    {
        if input[i + k] != lit[k] {
            proof {
                if i + lit@.len() <= input@.len() && input@.subrange(i as int, i + lit@.len())
                    == lit@ {
                    assert(input@.subrange(i as int, i + lit@.len())[k as int] == input@[i + k]);
                    assert(false);
                }
            }
            return None;
        }
        k = k + 1;
    }
    assert(input@.subrange(i as int, (i + lit.len()) as int) =~= lit@);
    Some(i + lit.len())
}

/// The nibble a canonical lower-case hex digit stands for; every canonical
/// digit is read back as its nibble.
fn hex_val(h: u8) -> (r: Option<u8>)
    ensures
        r matches Some(v) ==> v < 16 && hex_digit(v) == h,
        forall|v: u8| v < 16 && h == hex_digit(v) ==> (r matches Some(x) && x == v),
{
    if 48 <= h && h <= 57 {
        Some(h - 48)
    } else if 97 <= h && h <= 102 {
        Some(h - 87)
    } else {
        None
    }
}

/// At a scan point whose next byte is a backslash, the six bytes at the
/// point spell the escape of the next byte of `s`.
proof fn lemma_string_scan_escape(input: Seq<u8>, i: int, k: int, out: Seq<u8>, s: Seq<u8>)
    requires
        0 <= i,
        i + 1 <= k <= input.len(),
        i + ser_string(s).len() <= input.len(),
        input.subrange(i, i + ser_string(s).len()) == ser_string(s),
        input.subrange(i + 1, k) == ser_str_body(out),
        k < input.len(),
        input[k] == bs(),
    ensures
        out.len() < s.len(),
        needs_escape(s[out.len() as int]),
        k + 6 <= input.len(),
        input[k + 1] == 'u' as u8,
        input[k + 2] == '0' as u8,
        input[k + 3] == '0' as u8,
        input[k + 4] == hex_digit(s[out.len() as int] / 16),
        input[k + 5] == hex_digit(s[out.len() as int] % 16),
{
    lemma_string_scan_state(input, i, k, out, s);
    let u = s.skip(out.len() as int);
    let rest2 = seq![q()] + input.skip(i + ser_string(s).len());
    assert(input.skip(k) == ser_str_body(u) + rest2);
    assert(input[k] == (ser_str_body(u) + rest2)[0]);
    if u.len() == 0 {
        assert(input[k] == q());
        assert(false);
    }
    assert(ser_str_body(u) == esc_byte(u[0]) + ser_str_body(u.skip(1)));
    lemma_esc_byte_first(u[0]);
    assert(needs_escape(u[0]));
    assert(s[out.len() as int] == u[0]);
    assert(input.skip(k).len() >= 6);
    assert(forall|t: int| 0 <= t < 6 ==> input.skip(k)[t] == esc_byte(u[0])[t]);
    assert(input[k + 1] == input.skip(k)[1] && esc_byte(u[0])[1] == 'u' as u8);
    assert(input[k + 2] == input.skip(k)[2] && esc_byte(u[0])[2] == '0' as u8);
    assert(input[k + 3] == input.skip(k)[3] && esc_byte(u[0])[3] == '0' as u8);
    assert(input[k + 4] == input.skip(k)[4] && esc_byte(u[0])[4] == hex_digit(u[0] / 16));
    assert(input[k + 5] == input.skip(k)[5] && esc_byte(u[0])[5] == hex_digit(u[0] % 16));
}

/// Reads a JSON string at `i`. Accepts exactly the writer's form: whatever
/// it returns, the consumed bytes are that string's written form, and any
/// string written at `i` is read back as itself.
fn parse_string_at(input: &[u8], i: usize) -> (r: Option<(Vec<u8>, usize)>)
    requires
        i <= input.len(),
    ensures
        r matches Some(p) ==> i < p.1 <= input.len() && input@.subrange(i as int, p.1 as int)
            == ser_string(p.0@),
        forall|s: Seq<u8>|
            (i + ser_string(s).len() <= input@.len() && input@.subrange(
                i as int,
                i + ser_string(s).len(),
            ) == ser_string(s)) ==> (r matches Some(p) && p.0@ == s && p.1 == i + ser_string(
                s,
            ).len()),
{
    if i >= input.len() || input[i] != '"' as u8 {
        proof {
            assert forall|s: Seq<u8>|
                !(i + ser_string(s).len() <= input@.len() && input@.subrange(
                    i as int,
                    i + ser_string(s).len(),
                ) == ser_string(s)) by {
                if i + ser_string(s).len() <= input@.len() && input@.subrange(
                    i as int,
                    i + ser_string(s).len(),
                ) == ser_string(s) {
                    assert(input@.subrange(i as int, i + ser_string(s).len())[0] == input@[
                        i as int
                    ]);
                    assert(ser_string(s)[0] == q());
                    assert(false);
                }
            }
        }
        return None;
    }
    let mut out: Vec<u8> = Vec::new();
    let mut k: usize = i + 1;
    while k < input.len()
        invariant
            i + 1 <= k <= input.len(),
            i < input.len(),
            input@[i as int] == q(),
            input@.subrange(i as int + 1, k as int) == ser_str_body(out@),
        decreases input.len() - k,
    {
        let b = input[k];
        if b == '"' as u8 {
            assert(input@.subrange(i as int, k as int + 1) =~= seq![q()] + ser_str_body(out@)
                + seq![q()]);
            proof {
                assert forall|s: Seq<u8>|
                    (i + ser_string(s).len() <= input@.len() && input@.subrange(
                        i as int,
                        i + ser_string(s).len(),
                    ) == ser_string(s)) implies (out@ == s && k + 1 == i + ser_string(
                    s,
                ).len()) by {
                    lemma_string_scan_state(input@, i as int, k as int, out@, s);
                    let u = s.skip(out@.len() as int);
                    let rest2 = seq![q()] + input@.skip(i + ser_string(s).len());
                    assert(input@[k as int] == (ser_str_body(u) + rest2)[0]);
                    if u.len() > 0 {
                        assert(ser_str_body(u) == esc_byte(u[0]) + ser_str_body(u.skip(1)));
                        lemma_esc_byte_first(u[0]);
                        assert(false);
                    }
                    assert(out@ =~= s);
                    assert(input@.skip(k as int).len() == rest2.len());
                }
            }
            return Some((out, k + 1));
        } else if b == '\\' as u8 {
            if input.len() - k < 6 {
                proof {
                    assert forall|s: Seq<u8>|
                        !(i + ser_string(s).len() <= input@.len() && input@.subrange(
                            i as int,
                            i + ser_string(s).len(),
                        ) == ser_string(s)) by {
                        if i + ser_string(s).len() <= input@.len() && input@.subrange(
                            i as int,
                            i + ser_string(s).len(),
                        ) == ser_string(s) {
                            lemma_string_scan_escape(input@, i as int, k as int, out@, s);
                            assert(false);
                        }
                    }
                }
                return None;
            }
            if input[k + 1] != 'u' as u8 || input[k + 2] != '0' as u8 || input[k + 3]
                != '0' as u8 {
                proof {
                    assert forall|s: Seq<u8>|
                        !(i + ser_string(s).len() <= input@.len() && input@.subrange(
                            i as int,
                            i + ser_string(s).len(),
                        ) == ser_string(s)) by {
                        if i + ser_string(s).len() <= input@.len() && input@.subrange(
                            i as int,
                            i + ser_string(s).len(),
                        ) == ser_string(s) {
                            lemma_string_scan_escape(input@, i as int, k as int, out@, s);
                            let c = s[out@.len() as int];
                            assert(input@[k as int + 1] == esc_byte(c)[1]);
                            assert(input@[k as int + 2] == esc_byte(c)[2]);
                            assert(input@[k as int + 3] == esc_byte(c)[3]);
                            assert(false);
                        }
                    }
                }
                return None;
            }
            let h1 = input[k + 4];
            let h2 = input[k + 5];
            let hi = match hex_val(h1) {
                Some(v) => v,
                None => {
                    proof {
                        assert forall|s: Seq<u8>|
                            !(i + ser_string(s).len() <= input@.len() && input@.subrange(
                                i as int,
                                i + ser_string(s).len(),
                            ) == ser_string(s)) by {
                            if i + ser_string(s).len() <= input@.len() && input@.subrange(
                                i as int,
                                i + ser_string(s).len(),
                            ) == ser_string(s) {
                                lemma_string_scan_escape(input@, i as int, k as int, out@, s);
                                let c = s[out@.len() as int];
                                assert(c / 16 < 16) by (bit_vector);
                                assert(input@[k as int + 4] == hex_digit(c / 16));
                                assert(false);
                            }
                        }
                    }
                    return None;
                },
            };
            let lo = match hex_val(h2) {
                Some(v) => v,
                None => {
                    proof {
                        assert forall|s: Seq<u8>|
                            !(i + ser_string(s).len() <= input@.len() && input@.subrange(
                                i as int,
                                i + ser_string(s).len(),
                            ) == ser_string(s)) by {
                            if i + ser_string(s).len() <= input@.len() && input@.subrange(
                                i as int,
                                i + ser_string(s).len(),
                            ) == ser_string(s) {
                                lemma_string_scan_escape(input@, i as int, k as int, out@, s);
                                let c = s[out@.len() as int];
                                assert(c % 16 < 16) by (bit_vector);
                                assert(input@[k as int + 5] == hex_digit(c % 16));
                                assert(false);
                            }
                        }
                    }
                    return None;
                },
            };
            let val = hi * 16 + lo;
            if !(val < 0x20 || val == '"' as u8 || val == '\\' as u8) {
                proof {
                    assert forall|s: Seq<u8>|
                        !(i + ser_string(s).len() <= input@.len() && input@.subrange(
                            i as int,
                            i + ser_string(s).len(),
                        ) == ser_string(s)) by {
                        if i + ser_string(s).len() <= input@.len() && input@.subrange(
                            i as int,
                            i + ser_string(s).len(),
                        ) == ser_string(s) {
                            lemma_string_scan_escape(input@, i as int, k as int, out@, s);
                            let c = s[out@.len() as int];
                            assert(c / 16 < 16 && c % 16 < 16) by (bit_vector);
                            assert(input@[k as int + 4] == hex_digit(c / 16));
                            assert(input@[k as int + 5] == hex_digit(c % 16));
                            assert(hi == c / 16 && lo == c % 16);
                            assert(c == c / 16 * 16 + c % 16) by (bit_vector);
                            assert(val == c);
                            assert(false);
                        }
                    }
                }
                return None;
            }
            let ghost out0 = out@;
            out.push(val);
            proof {
                assert(val / 16 == hi && val % 16 == lo) by (nonlinear_arith)
                    requires
                        hi < 16,
                        lo < 16,
                        val == hi * 16 + lo,
                ;
                assert(esc_byte(val) =~= input@.subrange(k as int, k as int + 6));
                lemma_ser_str_body_push(out0, val);
                assert(input@.subrange(i as int + 1, k as int + 6) =~= input@.subrange(
                    i as int + 1,
                    k as int,
                ) + input@.subrange(k as int, k as int + 6));
                assert(input@.subrange(i as int + 1, k as int + 6) == ser_str_body(out@));
            }
            k = k + 6;
        } else {
            if b < 0x20 {
                proof {
                    assert forall|s: Seq<u8>|
                        !(i + ser_string(s).len() <= input@.len() && input@.subrange(
                            i as int,
                            i + ser_string(s).len(),
                        ) == ser_string(s)) by {
                        if i + ser_string(s).len() <= input@.len() && input@.subrange(
                            i as int,
                            i + ser_string(s).len(),
                        ) == ser_string(s) {
                            lemma_string_scan_state(input@, i as int, k as int, out@, s);
                            let u = s.skip(out@.len() as int);
                            let rest2 = seq![q()] + input@.skip(i + ser_string(s).len());
                            assert(input@[k as int] == (ser_str_body(u) + rest2)[0]);
                            if u.len() == 0 {
                                assert(input@[k as int] == q());
                                assert(false);
                            }
                            assert(ser_str_body(u) == esc_byte(u[0]) + ser_str_body(u.skip(1)));
                            lemma_esc_byte_first(u[0]);
                            assert(!needs_escape(u[0]));
                            assert(false);
                        }
                    }
                }
                return None;
            }
            let ghost out0 = out@;
            out.push(b);
            proof {
                assert(esc_byte(b) =~= seq![b]);
                lemma_ser_str_body_push(out0, b);
                assert(input@.subrange(i as int + 1, k as int + 1) =~= input@.subrange(
                    i as int + 1,
                    k as int,
                ) + seq![b]);
                assert(input@.subrange(i as int + 1, k as int + 1) == ser_str_body(out@));
            }
            k = k + 1;
        }
    }
    proof {
        assert forall|s: Seq<u8>|
            !(i + ser_string(s).len() <= input@.len() && input@.subrange(
                i as int,
                i + ser_string(s).len(),
            ) == ser_string(s)) by {
            if i + ser_string(s).len() <= input@.len() && input@.subrange(
                i as int,
                i + ser_string(s).len(),
            ) == ser_string(s) {
                lemma_string_scan_state(input@, i as int, k as int, out@, s);
                assert(input@.skip(k as int).len() >= 1);
                assert(false);
            }
        }
    }
    None
}

/// Reads a decimal number at `i`: no leading zeros, the longest digit run,
/// rejected on overflow; a machine-sized number written at `i` and followed
/// by a non-digit is read back as itself.
fn parse_dec_at(input: &[u8], i: usize) -> (r: Option<(usize, usize)>)
    requires
        i <= input.len(),
    ensures
        r matches Some(p) ==> i < p.1 <= input.len() && input@.subrange(i as int, p.1 as int)
            == dec_of(p.0 as nat) && (p.1 == input.len() || !is_digit(input@[p.1 as int])),
        forall|nv: usize|
            (i + dec_of(nv as nat).len() <= input@.len() && input@.subrange(
                i as int,
                i + dec_of(nv as nat).len(),
            ) == dec_of(nv as nat) && (i + dec_of(nv as nat).len() == input@.len() || !is_digit(
                input@[i + dec_of(nv as nat).len()],
            ))) ==> (r matches Some(p) && p.0 == nv && p.1 == i + dec_of(nv as nat).len()),
{
    if i >= input.len() {
        proof {
            assert forall|nv: usize|
                !(i + dec_of(nv as nat).len() <= input@.len() && input@.subrange(
                    i as int,
                    i + dec_of(nv as nat).len(),
                ) == dec_of(nv as nat) && (i + dec_of(nv as nat).len() == input@.len()
                    || !is_digit(input@[i + dec_of(nv as nat).len()]))) by {
                lemma_dec_digits(nv as nat);
            }
        }
        return None;
    }
    let b = input[i];
    if !(48 <= b && b <= 57) {
        proof {
            assert forall|nv: usize|
                !(i + dec_of(nv as nat).len() <= input@.len() && input@.subrange(
                    i as int,
                    i + dec_of(nv as nat).len(),
                ) == dec_of(nv as nat) && (i + dec_of(nv as nat).len() == input@.len()
                    || !is_digit(input@[i + dec_of(nv as nat).len()]))) by {
                if i + dec_of(nv as nat).len() <= input@.len() && input@.subrange(
                    i as int,
                    i + dec_of(nv as nat).len(),
                ) == dec_of(nv as nat) {
                    lemma_dec_digits(nv as nat);
                    assert(input@.subrange(i as int, i + dec_of(nv as nat).len())[0] == input@[
                        i as int
                    ]);
                    assert(is_digit(dec_of(nv as nat)[0]));
                    assert(false);
                }
            }
        }
        return None;
    }
    if b == 48 {
        if i + 1 < input.len() && 48 <= input[i + 1] && input[i + 1] <= 57 {
            proof {
                assert forall|nv: usize|
                    !(i + dec_of(nv as nat).len() <= input@.len() && input@.subrange(
                        i as int,
                        i + dec_of(nv as nat).len(),
                    ) == dec_of(nv as nat) && (i + dec_of(nv as nat).len() == input@.len()
                        || !is_digit(input@[i + dec_of(nv as nat).len()]))) by {
                    if i + dec_of(nv as nat).len() <= input@.len() && input@.subrange(
                        i as int,
                        i + dec_of(nv as nat).len(),
                    ) == dec_of(nv as nat) && (i + dec_of(nv as nat).len() == input@.len()
                        || !is_digit(input@[i + dec_of(nv as nat).len()])) {
                        lemma_dec_digits(nv as nat);
                        lemma_dec_first_digit(nv as nat);
                        assert(input@.subrange(i as int, i + dec_of(nv as nat).len())[0]
                            == input@[i as int]);
                        assert(dec_of(nv as nat)[0] == 48);
                        assert(nv == 0);
                        assert(dec_of(nv as nat).len() == 1);
                        assert(false);
                    }
                }
            }
            return None;
        }
        assert(input@.subrange(i as int, i as int + 1) =~= dec_of(0));
        proof {
            assert forall|nv: usize|
                (i + dec_of(nv as nat).len() <= input@.len() && input@.subrange(
                    i as int,
                    i + dec_of(nv as nat).len(),
                ) == dec_of(nv as nat) && (i + dec_of(nv as nat).len() == input@.len()
                    || !is_digit(input@[i + dec_of(nv as nat).len()]))) implies (nv == 0
                && dec_of(nv as nat).len() == 1) by {
                lemma_dec_first_digit(nv as nat);
                assert(input@.subrange(i as int, i + dec_of(nv as nat).len())[0] == input@[
                    i as int
                ]);
                assert(dec_of(nv as nat)[0] == 48);
                assert(nv == 0);
            }
        }
        return Some((0, i + 1));
    }
    let mut n: usize = (b - 48) as usize;
    let mut k: usize = i + 1;
    assert(input@.subrange(i as int, k as int) =~= dec_of(n as nat));
    while k < input.len()
        invariant
            i < k <= input.len(),
            1 <= n,
            input@.subrange(i as int, k as int) == dec_of(n as nat),
        decreases input.len() - k,
    {
        let b2 = input[k];
        if !(48 <= b2 && b2 <= 57) {
            proof {
                assert forall|nv: usize|
                    (i + dec_of(nv as nat).len() <= input@.len() && input@.subrange(
                        i as int,
                        i + dec_of(nv as nat).len(),
                    ) == dec_of(nv as nat) && (i + dec_of(nv as nat).len() == input@.len()
                        || !is_digit(input@[i + dec_of(nv as nat).len()]))) implies (n == nv
                    && k == i + dec_of(nv as nat).len()) by {
                    lemma_dec_digits(nv as nat);
                    lemma_dec_digits(n as nat);
                    if k - i > dec_of(nv as nat).len() {
                        let pos = i + dec_of(nv as nat).len();
                        assert(input@[pos] == input@.subrange(i as int, k as int)[pos - i]);
                        assert(is_digit(dec_of(n as nat)[pos - i]));
                        assert(false);
                    }
                    if k - i < dec_of(nv as nat).len() {
                        assert(input@[k as int] == input@.subrange(
                            i as int,
                            i + dec_of(nv as nat).len(),
                        )[k - i]);
                        assert(is_digit(dec_of(nv as nat)[k - i]));
                        assert(false);
                    }
                    assert(dec_of(n as nat) =~= dec_of(nv as nat)) by {
                        assert(forall|t: int|
                            0 <= t < k - i ==> input@.subrange(i as int, k as int)[t]
                                == input@.subrange(i as int, i + dec_of(nv as nat).len())[t]);
                    }
                    lemma_dec_injective(n as nat, nv as nat);
                }
            }
            return Some((n, k));
        }
        let d = (b2 - 48) as usize;
        if n > (usize::MAX - d) / 10 {
            proof {
                assert forall|nv: usize|
                    !(i + dec_of(nv as nat).len() <= input@.len() && input@.subrange(
                        i as int,
                        i + dec_of(nv as nat).len(),
                    ) == dec_of(nv as nat) && (i + dec_of(nv as nat).len() == input@.len()
                        || !is_digit(input@[i + dec_of(nv as nat).len()]))) by {
                    if i + dec_of(nv as nat).len() <= input@.len() && input@.subrange(
                        i as int,
                        i + dec_of(nv as nat).len(),
                    ) == dec_of(nv as nat) && (i + dec_of(nv as nat).len() == input@.len()
                        || !is_digit(input@[i + dec_of(nv as nat).len()])) {
                        lemma_dec_digits(nv as nat);
                        lemma_dec_digits(n as nat);
                        if k - i > dec_of(nv as nat).len() {
                            let pos = i + dec_of(nv as nat).len();
                            assert(input@[pos] == input@.subrange(i as int, k as int)[pos - i]);
                            assert(is_digit(dec_of(n as nat)[pos - i]));
                            assert(false);
                        }
                        if k - i == dec_of(nv as nat).len() {
                            assert(false);
                        }
                        assert forall|t: int|
                            0 <= t < k - i implies dec_of(n as nat)[t] == dec_of(nv as nat)[
                        t] by {
                            assert(dec_of(n as nat)[t] == input@.subrange(
                                i as int,
                                k as int,
                            )[t]);
                            assert(dec_of(nv as nat)[t] == input@.subrange(
                                i as int,
                                i + dec_of(nv as nat).len(),
                            )[t]);
                        }
                        assert(input@[k as int] == input@.subrange(
                            i as int,
                            i + dec_of(nv as nat).len(),
                        )[k - i]);
                        assert(b2 == dec_of(nv as nat)[k - i]);
                        assert(dec_of(n as nat) + seq![b2] =~= dec_of(nv as nat).subrange(
                            0,
                            k - i + 1,
                        ));
                        lemma_dec_prefix_step(n as nat, b2, nv as nat);
                        assert(n * 10 + d <= nv);
                        assert(n <= (usize::MAX - d) / 10) by (nonlinear_arith)
                            requires
                                n * 10 + d <= usize::MAX,
                                d <= 9,
                        ;
                        assert(false);
                    }
                }
            }
            return None;
        }
        assert(n * 10 + d <= usize::MAX) by (nonlinear_arith)
            requires
                n <= (usize::MAX - d) / 10,
                d <= 9,
        ;
        let n2 = n * 10 + d;
        proof {
            assert(n2 / 10 == n && n2 % 10 == d && n2 >= 10) by (nonlinear_arith)
                requires
                    n2 == n * 10 + d,
                    1 <= n,
                    d <= 9,
            ;
            assert(dec_of(n2 as nat) == dec_of(n as nat) + seq![b2]);
            assert(input@.subrange(i as int, k as int + 1) =~= input@.subrange(
                i as int,
                k as int,
            ) + seq![b2]);
        }
        n = n2;
        k = k + 1;
    }
    proof {
        assert forall|nv: usize|
            (i + dec_of(nv as nat).len() <= input@.len() && input@.subrange(
                i as int,
                i + dec_of(nv as nat).len(),
            ) == dec_of(nv as nat) && (i + dec_of(nv as nat).len() == input@.len() || !is_digit(
                input@[i + dec_of(nv as nat).len()],
            ))) implies (n == nv && k == i + dec_of(nv as nat).len()) by {
            lemma_dec_digits(nv as nat);
            lemma_dec_digits(n as nat);
            if k - i > dec_of(nv as nat).len() {
                let pos = i + dec_of(nv as nat).len();
                assert(input@[pos] == input@.subrange(i as int, k as int)[pos - i]);
                assert(is_digit(dec_of(n as nat)[pos - i]));
                assert(false);
            }
            assert(dec_of(n as nat) =~= dec_of(nv as nat)) by {
                assert(forall|t: int|
                    0 <= t < k - i ==> input@.subrange(i as int, k as int)[t] == input@.subrange(
                        i as int,
                        i + dec_of(nv as nat).len(),
                    )[t]);
            }
            lemma_dec_injective(n as nat, nv as nat);
        }
    }
    Some((n, k))
}

/// What a written matcher at `i` forces on the bytes there, variant by
/// variant: the head bytes and the positions of the parts.
proof fn lemma_matcher_head(input: Seq<u8>, i: int, v: MatcherModel)
    requires
        0 <= i,
        i + ser_matcher(v).len() <= input.len(),
        input.subrange(i, i + ser_matcher(v).len()) == ser_matcher(v),
    ensures
        i < input.len(),
        v matches MatcherModel::Exact(s0) ==> input[i] == q() && ser_matcher(v).len()
            == ser_string(s0).len() && input.subrange(i, i + ser_string(s0).len())
            == ser_string(s0),
        v matches MatcherModel::Regexp(p0) ==> input[i] == '{' as u8 && input[i + 2] == 'r' as u8
            && ser_matcher(v).len() == 10 + ser_string(p0).len() && input.subrange(i, i + 9)
            == obj_regex() && input.subrange(i + 9, i + 9 + ser_string(p0).len()) == ser_string(
            p0,
        ) && input[i + 9 + ser_string(p0).len() as int] == '}' as u8,
        v matches MatcherModel::Missing ==> input[i] == '{' as u8 && input[i + 2] == 'm' as u8
            && ser_matcher(v).len() == 16 && input.subrange(i, i + 16) == lit_missing(),
{
    let m = ser_matcher(v);
    assert(forall|t: int|
        0 <= t < m.len() ==> #[trigger] input.subrange(i, i + m.len() as int)[t] == input[i + t]);
    match v {
        MatcherModel::Exact(s0) => {
            assert(input[i] == m[0]);
            assert(m[0] == q());
        },
        MatcherModel::Regexp(p0) => {
            assert(m == obj_regex() + ser_string(p0) + seq!['}' as u8]);
            assert(input[i] == m[0] && input[i + 2] == m[2]);
            assert(m[0] == obj_regex()[0] && m[2] == obj_regex()[2]);
            assert forall|t: int| 0 <= t < 9 implies input.subrange(i, i + 9)[t] == obj_regex()[
            t] by {
                assert(input.subrange(i, i + 9)[t] == input[i + t]);
                assert(input[i + t] == m[t]);
                assert(m[t] == obj_regex()[t]);
            }
            assert(input.subrange(i, i + 9) =~= obj_regex());
            assert forall|t: int| 0 <= t < ser_string(p0).len() implies input.subrange(
                i + 9,
                i + 9 + ser_string(p0).len(),
            )[t] == ser_string(p0)[t] by {
                assert(input.subrange(i + 9, i + 9 + ser_string(p0).len())[t] == input[i + 9
                    + t]);
                assert(input[i + 9 + t] == m[9 + t]);
                assert(m[9 + t] == ser_string(p0)[t]);
            }
            assert(input.subrange(i + 9, i + 9 + ser_string(p0).len()) =~= ser_string(p0));
            assert(input[i + 9 + ser_string(p0).len() as int] == m[9 + ser_string(
                p0,
            ).len() as int]);
            assert(m[9 + ser_string(p0).len() as int] == '}' as u8);
        },
        MatcherModel::Missing => {
            assert(input[i] == m[0] && input[i + 2] == m[2]);
            assert(input.subrange(i, i + 16) == lit_missing());
        },
    }
}

/// Reads a matcher at `i`: a bare string, a tagged pattern object, or the
/// absence marker; any written matcher is read back as itself.
fn parse_matcher_at(input: &[u8], i: usize) -> (r: Option<(Matcher, usize)>)
    requires
        i <= input.len(),
    ensures
        r matches Some(p) ==> i < p.1 <= input.len() && input@.subrange(i as int, p.1 as int)
            == ser_matcher(p.0@),
        forall|v: MatcherModel|
            (i + ser_matcher(v).len() <= input@.len() && input@.subrange(
                i as int,
                i + ser_matcher(v).len(),
            ) == ser_matcher(v)) ==> (r matches Some(p) && p.0@ == v && p.1 == i + ser_matcher(
                v,
            ).len()),
{
    if i >= input.len() {
        proof {
            assert forall|v: MatcherModel|
                !(i + ser_matcher(v).len() <= input@.len() && input@.subrange(
                    i as int,
                    i + ser_matcher(v).len(),
                ) == ser_matcher(v)) by {
                if i + ser_matcher(v).len() <= input@.len() && input@.subrange(
                    i as int,
                    i + ser_matcher(v).len(),
                ) == ser_matcher(v) {
                    lemma_matcher_head(input@, i as int, v);
                    assert(false);
                }
            }
        }
        return None;
    }
    if input[i] == '"' as u8 {
        match parse_string_at(input, i) {
            Some((s, j)) => {
                proof {
                    assert forall|v: MatcherModel|
                        (i + ser_matcher(v).len() <= input@.len() && input@.subrange(
                            i as int,
                            i + ser_matcher(v).len(),
                        ) == ser_matcher(v)) implies (v == MatcherModel::Exact(s@) && i
                        + ser_matcher(v).len() == j) by {
                        lemma_matcher_head(input@, i as int, v);
                        match v {
                            MatcherModel::Exact(s0) => {},
                            MatcherModel::Regexp(p0) => {
                                assert(false);
                            },
                            MatcherModel::Missing => {
                                assert(false);
                            },
                        }
                    }
                }
                Some((Matcher::Exact(s), j))
            },
            None => {
                proof {
                    assert forall|v: MatcherModel|
                        !(i + ser_matcher(v).len() <= input@.len() && input@.subrange(
                            i as int,
                            i + ser_matcher(v).len(),
                        ) == ser_matcher(v)) by {
                        if i + ser_matcher(v).len() <= input@.len() && input@.subrange(
                            i as int,
                            i + ser_matcher(v).len(),
                        ) == ser_matcher(v) {
                            lemma_matcher_head(input@, i as int, v);
                            match v {
                                MatcherModel::Exact(s0) => {
                                    assert(false);
                                },
                                MatcherModel::Regexp(p0) => {
                                    assert(false);
                                },
                                MatcherModel::Missing => {
                                    assert(false);
                                },
                            }
                        }
                    }
                }
                None
            },
        }
    } else {
        let lit = obj_regex_bytes();
        match eat(input, i, lit.as_slice()) {
            Some(j1) => {
                match parse_string_at(input, j1) {
                    Some((p, j2)) => {
                        if j2 < input.len() && input[j2] == '}' as u8 {
                            assert(input@.subrange(i as int, j2 as int + 1) =~= obj_regex()
                                + ser_string(p@) + seq!['}' as u8]);
                            proof {
                                assert forall|v: MatcherModel|
                                    (i + ser_matcher(v).len() <= input@.len()
                                        && input@.subrange(
                                        i as int,
                                        i + ser_matcher(v).len(),
                                    ) == ser_matcher(v)) implies (v == MatcherModel::Regexp(p@)
                                    && i + ser_matcher(v).len() == j2 + 1) by {
                                    lemma_matcher_head(input@, i as int, v);
                                    match v {
                                        MatcherModel::Exact(s0) => {
                                            assert(false);
                                        },
                                        MatcherModel::Regexp(p0) => {
                                            assert(j1 == i + 9);
                                            assert(p@ == p0 && j2 == j1 + ser_string(p0).len());
                                        },
                                        MatcherModel::Missing => {
                                            assert(input@.subrange(i as int, i + 9)
                                                == obj_regex());
                                            assert(input@.subrange(i as int, i + 9)[2]
                                                == input@[i as int + 2]);
                                            assert(false);
                                        },
                                    }
                                }
                            }
                            Some((Matcher::Regexp(p), j2 + 1))
                        } else {
                            proof {
                                assert forall|v: MatcherModel|
                                    !(i + ser_matcher(v).len() <= input@.len()
                                        && input@.subrange(
                                        i as int,
                                        i + ser_matcher(v).len(),
                                    ) == ser_matcher(v)) by {
                                    if i + ser_matcher(v).len() <= input@.len()
                                        && input@.subrange(
                                        i as int,
                                        i + ser_matcher(v).len(),
                                    ) == ser_matcher(v) {
                                        lemma_matcher_head(input@, i as int, v);
                                        match v {
                                            MatcherModel::Exact(s0) => {
                                                assert(false);
                                            },
                                            MatcherModel::Regexp(p0) => {
                                                assert(j1 == i + 9);
                                                assert(p@ == p0 && j2 == j1 + ser_string(
                                                    p0,
                                                ).len());
                                                assert(input@[j2 as int] == '}' as u8);
                                                assert(false);
                                            },
                                            MatcherModel::Missing => {
                                                assert(input@.subrange(i as int, i + 9)
                                                    == obj_regex());
                                                assert(input@.subrange(i as int, i + 9)[2]
                                                    == input@[i as int + 2]);
                                                assert(false);
                                            },
                                        }
                                    }
                                }
                            }
                            None
                        }
                    },
                    None => {
                        proof {
                            assert forall|v: MatcherModel|
                                !(i + ser_matcher(v).len() <= input@.len() && input@.subrange(
                                    i as int,
                                    i + ser_matcher(v).len(),
                                ) == ser_matcher(v)) by {
                                if i + ser_matcher(v).len() <= input@.len() && input@.subrange(
                                    i as int,
                                    i + ser_matcher(v).len(),
                                ) == ser_matcher(v) {
                                    lemma_matcher_head(input@, i as int, v);
                                    match v {
                                        MatcherModel::Exact(s0) => {
                                            assert(false);
                                        },
                                        MatcherModel::Regexp(p0) => {
                                            assert(j1 == i + 9);
                                            assert(false);
                                        },
                                        MatcherModel::Missing => {
                                            assert(input@.subrange(i as int, i + 9)
                                                == obj_regex());
                                            assert(input@.subrange(i as int, i + 9)[2]
                                                == input@[i as int + 2]);
                                            assert(false);
                                        },
                                    }
                                }
                            }
                        }
                        None
                    },
                }
            },
            None => {
                let lit2 = lit_missing_bytes();
                match eat(input, i, lit2.as_slice()) {
                    Some(j) => {
                        proof {
                            assert forall|v: MatcherModel|
                                (i + ser_matcher(v).len() <= input@.len() && input@.subrange(
                                    i as int,
                                    i + ser_matcher(v).len(),
                                ) == ser_matcher(v)) implies (v == MatcherModel::Missing && i
                                + ser_matcher(v).len() == j) by {
                                lemma_matcher_head(input@, i as int, v);
                                match v {
                                    MatcherModel::Exact(s0) => {
                                        assert(false);
                                    },
                                    MatcherModel::Regexp(p0) => {
                                        assert(false);
                                    },
                                    MatcherModel::Missing => {},
                                }
                            }
                        }
                        Some((Matcher::Missing, j))
                    },
                    None => {
                        proof {
                            assert forall|v: MatcherModel|
                                !(i + ser_matcher(v).len() <= input@.len() && input@.subrange(
                                    i as int,
                                    i + ser_matcher(v).len(),
                                ) == ser_matcher(v)) by {
                                if i + ser_matcher(v).len() <= input@.len() && input@.subrange(
                                    i as int,
                                    i + ser_matcher(v).len(),
                                ) == ser_matcher(v) {
                                    lemma_matcher_head(input@, i as int, v);
                                    match v {
                                        MatcherModel::Exact(s0) => {
                                            assert(false);
                                        },
                                        MatcherModel::Regexp(p0) => {
                                            assert(false);
                                        },
                                        MatcherModel::Missing => {
                                            assert(false);
                                        },
                                    }
                                }
                            }
                        }
                        None
                    },
                }
            },
        }
    }
}

/// What a written header expectation at `i` forces on the bytes there: the bracket, the
/// parts at their positions, the comma and the closing bracket.
proof fn lemma_expectation_head(input: Seq<u8>, i: int, nm: Seq<u8>, mv: MatcherModel)
    requires
        0 <= i,
        i + ser_header_expectation((nm, mv)).len() <= input.len(),
        input.subrange(i, i + ser_header_expectation((nm, mv)).len()) == ser_header_expectation((nm, mv)),
    ensures
        i < input.len(),
        input[i] == '[' as u8,
        ser_header_expectation((nm, mv)).len() == 3 + ser_string(nm).len() + ser_matcher(mv).len(),
        input.subrange(i + 1, i + 1 + ser_string(nm).len()) == ser_string(nm),
        input[i + 1 + ser_string(nm).len() as int] == ',' as u8,
        input.subrange(
            i + 2 + ser_string(nm).len(),
            i + 2 + ser_string(nm).len() + ser_matcher(mv).len(),
        ) == ser_matcher(mv),
        input[i + 2 + ser_string(nm).len() + ser_matcher(mv).len() as int] == ']' as u8,
{
    let e = ser_header_expectation((nm, mv));
    assert(e == seq!['[' as u8] + ser_string(nm) + seq![',' as u8] + ser_matcher(mv) + seq![
        ']' as u8,
    ]);
    assert(forall|t: int|
        0 <= t < e.len() ==> #[trigger] input.subrange(i, i + e.len() as int)[t] == input[i + t]);
    assert(input[i] == e[0] && e[0] == '[' as u8);
    let a = ser_string(nm).len() as int;
    let b = ser_matcher(mv).len() as int;
    assert forall|t: int| 0 <= t < a implies input.subrange(i + 1, i + 1 + a)[t] == ser_string(
        nm,
    )[t] by {
        assert(input.subrange(i + 1, i + 1 + a)[t] == input[i + 1 + t]);
        assert(input[i + 1 + t] == e[1 + t]);
        assert(e[1 + t] == ser_string(nm)[t]);
    }
    assert(input.subrange(i + 1, i + 1 + a) =~= ser_string(nm));
    assert(input[i + 1 + a] == e[1 + a] && e[1 + a] == ',' as u8);
    assert forall|t: int| 0 <= t < b implies input.subrange(i + 2 + a, i + 2 + a + b)[t] == ser_matcher(
        mv,
    )[t] by {
        assert(input.subrange(i + 2 + a, i + 2 + a + b)[t] == input[i + 2 + a + t]);
        assert(input[i + 2 + a + t] == e[2 + a + t]);
        assert(e[2 + a + t] == ser_matcher(mv)[t]);
    }
    assert(input.subrange(i + 2 + a, i + 2 + a + b) =~= ser_matcher(mv));
    assert(input[i + 2 + a + b] == e[2 + a + b] && e[2 + a + b] == ']' as u8);
}

/// Reads one header expectation `["name",matcher]` at `i`; any written
/// expectation is read back as itself.
fn parse_header_expectation_at(input: &[u8], i: usize) -> (r: Option<((Vec<u8>, Matcher), usize)>)
    requires
        i <= input.len(),
    ensures
        r matches Some(p) ==> i < p.1 <= input.len() && input@.subrange(i as int, p.1 as int)
            == ser_header_expectation((p.0.0@, p.0.1@)),
        forall|nm: Seq<u8>, mv: MatcherModel|
            (i + ser_header_expectation((nm, mv)).len() <= input@.len() && input@.subrange(
                i as int,
                i + ser_header_expectation((nm, mv)).len(),
            ) == ser_header_expectation((nm, mv))) ==> (r matches Some(p) && p.0.0@ == nm && p.0.1@ == mv && p.1
                == i + ser_header_expectation((nm, mv)).len()),
{
    if i >= input.len() || input[i] != '[' as u8 {
        proof {
            assert forall|nm: Seq<u8>, mv: MatcherModel|
                !(i + ser_header_expectation((nm, mv)).len() <= input@.len() && input@.subrange(
                    i as int,
                    i + ser_header_expectation((nm, mv)).len(),
                ) == ser_header_expectation((nm, mv))) by {
                if i + ser_header_expectation((nm, mv)).len() <= input@.len() && input@.subrange(
                    i as int,
                    i + ser_header_expectation((nm, mv)).len(),
                ) == ser_header_expectation((nm, mv)) {
                    lemma_expectation_head(input@, i as int, nm, mv);
                    assert(false);
                }
            }
        }
        return None;
    }
    let (name, j1) = match parse_string_at(input, i + 1) {
        Some(p) => p,
        None => {
            proof {
                assert forall|nm: Seq<u8>, mv: MatcherModel|
                    !(i + ser_header_expectation((nm, mv)).len() <= input@.len() && input@.subrange(
                        i as int,
                        i + ser_header_expectation((nm, mv)).len(),
                    ) == ser_header_expectation((nm, mv))) by {
                    if i + ser_header_expectation((nm, mv)).len() <= input@.len() && input@.subrange(
                        i as int,
                        i + ser_header_expectation((nm, mv)).len(),
                    ) == ser_header_expectation((nm, mv)) {
                        lemma_expectation_head(input@, i as int, nm, mv);
                        assert(false);
                    }
                }
            }
            return None;
        },
    };
    if j1 >= input.len() || input[j1] != ',' as u8 {
        proof {
            assert forall|nm: Seq<u8>, mv: MatcherModel|
                !(i + ser_header_expectation((nm, mv)).len() <= input@.len() && input@.subrange(
                    i as int,
                    i + ser_header_expectation((nm, mv)).len(),
                ) == ser_header_expectation((nm, mv))) by {
                if i + ser_header_expectation((nm, mv)).len() <= input@.len() && input@.subrange(
                    i as int,
                    i + ser_header_expectation((nm, mv)).len(),
                ) == ser_header_expectation((nm, mv)) {
                    lemma_expectation_head(input@, i as int, nm, mv);
                    assert(name@ == nm && j1 == i + 1 + ser_string(nm).len());
                    assert(false);
                }
            }
        }
        return None;
    }
    let (m, j2) = match parse_matcher_at(input, j1 + 1) {
        Some(p) => p,
        None => {
            proof {
                assert forall|nm: Seq<u8>, mv: MatcherModel|
                    !(i + ser_header_expectation((nm, mv)).len() <= input@.len() && input@.subrange(
                        i as int,
                        i + ser_header_expectation((nm, mv)).len(),
                    ) == ser_header_expectation((nm, mv))) by {
                    if i + ser_header_expectation((nm, mv)).len() <= input@.len() && input@.subrange(
                        i as int,
                        i + ser_header_expectation((nm, mv)).len(),
                    ) == ser_header_expectation((nm, mv)) {
                        lemma_expectation_head(input@, i as int, nm, mv);
                        assert(name@ == nm && j1 == i + 1 + ser_string(nm).len());
                        assert(false);
                    }
                }
            }
            return None;
        },
    };
    if j2 >= input.len() || input[j2] != ']' as u8 {
        proof {
            assert forall|nm: Seq<u8>, mv: MatcherModel|
                !(i + ser_header_expectation((nm, mv)).len() <= input@.len() && input@.subrange(
                    i as int,
                    i + ser_header_expectation((nm, mv)).len(),
                ) == ser_header_expectation((nm, mv))) by {
                if i + ser_header_expectation((nm, mv)).len() <= input@.len() && input@.subrange(
                    i as int,
                    i + ser_header_expectation((nm, mv)).len(),
                ) == ser_header_expectation((nm, mv)) {
                    lemma_expectation_head(input@, i as int, nm, mv);
                    assert(name@ == nm && j1 == i + 1 + ser_string(nm).len());
                    assert(m@ == mv && j2 == j1 + 1 + ser_matcher(mv).len());
                    assert(false);
                }
            }
        }
        return None;
    }
    assert(input@.subrange(i as int, j2 as int + 1) =~= seq!['[' as u8] + ser_string(name@)
        + seq![',' as u8] + ser_matcher(m@) + seq![']' as u8]);
    proof {
        assert forall|nm: Seq<u8>, mv: MatcherModel|
            (i + ser_header_expectation((nm, mv)).len() <= input@.len() && input@.subrange(
                i as int,
                i + ser_header_expectation((nm, mv)).len(),
            ) == ser_header_expectation((nm, mv))) implies (name@ == nm && m@ == mv && j2 + 1 == i + ser_header_expectation(
            (nm, mv),
        ).len()) by {
            lemma_expectation_head(input@, i as int, nm, mv);
            assert(name@ == nm && j1 == i + 1 + ser_string(nm).len());
            assert(m@ == mv && j2 == j1 + 1 + ser_matcher(mv).len());
        }
    }
    Some(((name, m), j2 + 1))
}

/// What a written response header at `i` forces on the bytes there: the bracket, the
/// parts at their positions, the comma and the closing bracket.
proof fn lemma_pair_head(input: Seq<u8>, i: int, nm: Seq<u8>, mv: Seq<u8>)
    requires
        0 <= i,
        i + ser_string_pair((nm, mv)).len() <= input.len(),
        input.subrange(i, i + ser_string_pair((nm, mv)).len()) == ser_string_pair((nm, mv)),
    ensures
        i < input.len(),
        input[i] == '[' as u8,
        ser_string_pair((nm, mv)).len() == 3 + ser_string(nm).len() + ser_string(mv).len(),
        input.subrange(i + 1, i + 1 + ser_string(nm).len()) == ser_string(nm),
        input[i + 1 + ser_string(nm).len() as int] == ',' as u8,
        input.subrange(
            i + 2 + ser_string(nm).len(),
            i + 2 + ser_string(nm).len() + ser_string(mv).len(),
        ) == ser_string(mv),
        input[i + 2 + ser_string(nm).len() + ser_string(mv).len() as int] == ']' as u8,
{
    let e = ser_string_pair((nm, mv));
    assert(e == seq!['[' as u8] + ser_string(nm) + seq![',' as u8] + ser_string(mv) + seq![
        ']' as u8,
    ]);
    assert(forall|t: int|
        0 <= t < e.len() ==> #[trigger] input.subrange(i, i + e.len() as int)[t] == input[i + t]);
    assert(input[i] == e[0] && e[0] == '[' as u8);
    let a = ser_string(nm).len() as int;
    let b = ser_string(mv).len() as int;
    assert forall|t: int| 0 <= t < a implies input.subrange(i + 1, i + 1 + a)[t] == ser_string(
        nm,
    )[t] by {
        assert(input.subrange(i + 1, i + 1 + a)[t] == input[i + 1 + t]);
        assert(input[i + 1 + t] == e[1 + t]);
        assert(e[1 + t] == ser_string(nm)[t]);
    }
    assert(input.subrange(i + 1, i + 1 + a) =~= ser_string(nm));
    assert(input[i + 1 + a] == e[1 + a] && e[1 + a] == ',' as u8);
    assert forall|t: int| 0 <= t < b implies input.subrange(i + 2 + a, i + 2 + a + b)[t] == ser_string(
        mv,
    )[t] by {
        assert(input.subrange(i + 2 + a, i + 2 + a + b)[t] == input[i + 2 + a + t]);
        assert(input[i + 2 + a + t] == e[2 + a + t]);
        assert(e[2 + a + t] == ser_string(mv)[t]);
    }
    assert(input.subrange(i + 2 + a, i + 2 + a + b) =~= ser_string(mv));
    assert(input[i + 2 + a + b] == e[2 + a + b] && e[2 + a + b] == ']' as u8);
}

/// Reads one response header `["name","value"]` at `i`; any written header
/// is read back as itself.
fn parse_string_pair_at(input: &[u8], i: usize) -> (r: Option<((Vec<u8>, Vec<u8>), usize)>)
    requires
        i <= input.len(),
    ensures
        r matches Some(p) ==> i < p.1 <= input.len() && input@.subrange(i as int, p.1 as int)
            == ser_string_pair((p.0.0@, p.0.1@)),
        forall|nm: Seq<u8>, mv: Seq<u8>|
            (i + ser_string_pair((nm, mv)).len() <= input@.len() && input@.subrange(
                i as int,
                i + ser_string_pair((nm, mv)).len(),
            ) == ser_string_pair((nm, mv))) ==> (r matches Some(p) && p.0.0@ == nm && p.0.1@ == mv && p.1
                == i + ser_string_pair((nm, mv)).len()),
{
    if i >= input.len() || input[i] != '[' as u8 {
        proof {
            assert forall|nm: Seq<u8>, mv: Seq<u8>|
                !(i + ser_string_pair((nm, mv)).len() <= input@.len() && input@.subrange(
                    i as int,
                    i + ser_string_pair((nm, mv)).len(),
                ) == ser_string_pair((nm, mv))) by {
                if i + ser_string_pair((nm, mv)).len() <= input@.len() && input@.subrange(
                    i as int,
                    i + ser_string_pair((nm, mv)).len(),
                ) == ser_string_pair((nm, mv)) {
                    lemma_pair_head(input@, i as int, nm, mv);
                    assert(false);
                }
            }
        }
        return None;
    }
    let (name, j1) = match parse_string_at(input, i + 1) {
        Some(p) => p,
        None => {
            proof {
                assert forall|nm: Seq<u8>, mv: Seq<u8>|
                    !(i + ser_string_pair((nm, mv)).len() <= input@.len() && input@.subrange(
                        i as int,
                        i + ser_string_pair((nm, mv)).len(),
                    ) == ser_string_pair((nm, mv))) by {
                    if i + ser_string_pair((nm, mv)).len() <= input@.len() && input@.subrange(
                        i as int,
                        i + ser_string_pair((nm, mv)).len(),
                    ) == ser_string_pair((nm, mv)) {
                        lemma_pair_head(input@, i as int, nm, mv);
                        assert(false);
                    }
                }
            }
            return None;
        },
    };
    if j1 >= input.len() || input[j1] != ',' as u8 {
        proof {
            assert forall|nm: Seq<u8>, mv: Seq<u8>|
                !(i + ser_string_pair((nm, mv)).len() <= input@.len() && input@.subrange(
                    i as int,
                    i + ser_string_pair((nm, mv)).len(),
                ) == ser_string_pair((nm, mv))) by {
                if i + ser_string_pair((nm, mv)).len() <= input@.len() && input@.subrange(
                    i as int,
                    i + ser_string_pair((nm, mv)).len(),
                ) == ser_string_pair((nm, mv)) {
                    lemma_pair_head(input@, i as int, nm, mv);
                    assert(name@ == nm && j1 == i + 1 + ser_string(nm).len());
                    assert(false);
                }
            }
        }
        return None;
    }
    let (m, j2) = match parse_string_at(input, j1 + 1) {
        Some(p) => p,
        None => {
            proof {
                assert forall|nm: Seq<u8>, mv: Seq<u8>|
                    !(i + ser_string_pair((nm, mv)).len() <= input@.len() && input@.subrange(
                        i as int,
                        i + ser_string_pair((nm, mv)).len(),
                    ) == ser_string_pair((nm, mv))) by {
                    if i + ser_string_pair((nm, mv)).len() <= input@.len() && input@.subrange(
                        i as int,
                        i + ser_string_pair((nm, mv)).len(),
                    ) == ser_string_pair((nm, mv)) {
                        lemma_pair_head(input@, i as int, nm, mv);
                        assert(name@ == nm && j1 == i + 1 + ser_string(nm).len());
                        assert(false);
                    }
                }
            }
            return None;
        },
    };
    if j2 >= input.len() || input[j2] != ']' as u8 {
        proof {
            assert forall|nm: Seq<u8>, mv: Seq<u8>|
                !(i + ser_string_pair((nm, mv)).len() <= input@.len() && input@.subrange(
                    i as int,
                    i + ser_string_pair((nm, mv)).len(),
                ) == ser_string_pair((nm, mv))) by {
                if i + ser_string_pair((nm, mv)).len() <= input@.len() && input@.subrange(
                    i as int,
                    i + ser_string_pair((nm, mv)).len(),
                ) == ser_string_pair((nm, mv)) {
                    lemma_pair_head(input@, i as int, nm, mv);
                    assert(name@ == nm && j1 == i + 1 + ser_string(nm).len());
                    assert(m@ == mv && j2 == j1 + 1 + ser_string(mv).len());
                    assert(false);
                }
            }
        }
        return None;
    }
    assert(input@.subrange(i as int, j2 as int + 1) =~= seq!['[' as u8] + ser_string(name@)
        + seq![',' as u8] + ser_string(m@) + seq![']' as u8]);
    proof {
        assert forall|nm: Seq<u8>, mv: Seq<u8>|
            (i + ser_string_pair((nm, mv)).len() <= input@.len() && input@.subrange(
                i as int,
                i + ser_string_pair((nm, mv)).len(),
            ) == ser_string_pair((nm, mv))) implies (name@ == nm && m@ == mv && j2 + 1 == i + ser_string_pair(
            (nm, mv),
        ).len()) by {
            lemma_pair_head(input@, i as int, nm, mv);
            assert(name@ == nm && j1 == i + 1 + ser_string(nm).len());
            assert(m@ == mv && j2 == j1 + 1 + ser_string(mv).len());
        }
    }
    Some(((name, m), j2 + 1))
}

/// Reads the array of header expectations at `i`.
fn parse_header_expectations_at(input: &[u8], i: usize) -> (r: Option<
    (Vec<(Vec<u8>, Matcher)>, usize),
>)
    requires
        i <= input.len(),
    ensures
        r matches Some(p) ==> i < p.1 <= input.len() && input@.subrange(i as int, p.1 as int)
            == ser_list(
            mock_headers_view(p.0@).map_values(
                |q: (Seq<u8>, MatcherModel)| ser_header_expectation(q),
            ),
        ),
{
    if i >= input.len() || input[i] != '[' as u8 {
        return None;
    }
    let mut out: Vec<(Vec<u8>, Matcher)> = Vec::new();
    let mut k: usize = i + 1;
    if k < input.len() && input[k] == ']' as u8 {
        assert(input@.subrange(i as int, k as int + 1) =~= ser_list(
            mock_headers_view(out@).map_values(
                |q: (Seq<u8>, MatcherModel)| ser_header_expectation(q),
            ),
        ));
        return Some((out, k + 1));
    }
    let (first, j) = match parse_header_expectation_at(input, k) {
        Some(p) => p,
        None => { return None; },
    };
    out.push(first);
    k = j;
    proof {
        let items = mock_headers_view(out@).map_values(
            |q: (Seq<u8>, MatcherModel)| ser_header_expectation(q),
        );
        assert(items.len() == 1);
        assert(items.subrange(0, 1) =~= items);
        lemma_join_comma_snoc(items, 0);
        assert(input@.subrange(i as int + 1, k as int) == join_comma(items));
    }
    while k < input.len()
        invariant
            i < k <= input.len(),
            input@[i as int] == '[' as u8,
            out@.len() >= 1,
            input@.subrange(i as int + 1, k as int) == join_comma(
                mock_headers_view(out@).map_values(
                    |q: (Seq<u8>, MatcherModel)| ser_header_expectation(q),
                ),
            ),
        decreases input.len() - k,
    {
        let ghost items0 = mock_headers_view(out@).map_values(
            |q: (Seq<u8>, MatcherModel)| ser_header_expectation(q),
        );
        if input[k] == ']' as u8 {
            assert(input@.subrange(i as int, k as int + 1) =~= ser_list(items0));
            return Some((out, k + 1));
        }
        if input[k] != ',' as u8 {
            return None;
        }
        let (pair, j2) = match parse_header_expectation_at(input, k + 1) {
            Some(p) => p,
            None => { return None; },
        };
        out.push(pair);
        proof {
            let items1 = mock_headers_view(out@).map_values(
                |q: (Seq<u8>, MatcherModel)| ser_header_expectation(q),
            );
            assert(items1 =~= items0.push(ser_header_expectation((pair.0@, pair.1@))));
            lemma_join_comma_push(items0, ser_header_expectation((pair.0@, pair.1@)));
            assert(input@.subrange(i as int + 1, j2 as int) =~= input@.subrange(
                i as int + 1,
                k as int,
            ) + seq![',' as u8] + input@.subrange(k as int + 1, j2 as int));
            assert(input@.subrange(i as int + 1, j2 as int) == join_comma(items1));
        }
        k = j2;
    }
    None
}

/// What a written list of response headers at `i` forces on the bytes there: the
/// opening bracket and, item by item, the join that follows it.
proof fn lemma_pair_list_head(input: Seq<u8>, i: int, hs: Seq<(Seq<u8>, Seq<u8>)>)
    requires
        0 <= i,
        i + ser_list(ser_pair_items(hs)).len() <= input.len(),
        input.subrange(i, i + ser_list(ser_pair_items(hs)).len()) == ser_list(ser_pair_items(hs)),
    ensures
        i + 1 < input.len(),
        input[i] == '[' as u8,
        input.skip(i + 1) == join_comma(ser_pair_items(hs)) + (seq![']' as u8] + input.skip(
            i + ser_list(ser_pair_items(hs)).len(),
        )),
        hs.len() == 0 ==> input[i + 1] == ']' as u8 && ser_list(ser_pair_items(hs)).len() == 2,
        hs.len() > 0 ==> input[i + 1] == '[' as u8 && input.skip(i + 1) == ser_string_pair(hs[0]) + (
        join_tail(ser_pair_items(hs.skip(1))) + (seq![']' as u8] + input.skip(
            i + ser_list(ser_pair_items(hs)).len(),
        ))),
{
    let items = ser_pair_items(hs);
    let l = ser_list(items);
    let tail = input.skip(i + l.len());
    assert(l == seq!['[' as u8] + join_comma(items) + seq![']' as u8]);
    assert(forall|t: int|
        0 <= t < l.len() ==> #[trigger] input.subrange(i, i + l.len() as int)[t] == input[i + t]);
    assert(input[i] == l[0] && l[0] == '[' as u8);
    assert(input.skip(i) =~= l + tail);
    assert(input.skip(i + 1) =~= (l + tail).skip(1));
    assert((l + tail).skip(1) =~= join_comma(items) + (seq![']' as u8] + tail));
    assert(input.skip(i + 1) == join_comma(items) + (seq![']' as u8] + tail));
    if hs.len() == 0 {
        assert(items.len() == 0);
        assert(join_comma(items) == Seq::<u8>::empty());
        assert(input[i + 1] == l[1] && l[1] == ']' as u8);
    } else {
        assert(items[0] == ser_string_pair(hs[0]));
        assert(join_comma(items) == items[0] + join_tail(items.skip(1)));
        assert(items.skip(1) =~= ser_pair_items(hs.skip(1)));
        assert(input.skip(i + 1) =~= ser_string_pair(hs[0]) + (join_tail(ser_pair_items(hs.skip(1))) + (seq![
            ']' as u8,
        ] + tail)));
        assert(ser_string_pair(hs[0])[0] == '[' as u8);
        assert(input[i + 1] == input.skip(i + 1)[0]);
    }
}

/// Reads the array of response headers at `i`; any written array is read
/// back as itself.
#[verifier::rlimit(100)]
#[verifier::spinoff_prover]
fn parse_string_pairs_at(input: &[u8], i: usize) -> (r: Option<
    (Vec<(Vec<u8>, Vec<u8>)>, usize),
>)
    requires
        i <= input.len(),
    ensures
        r matches Some(p) ==> i < p.1 <= input.len() && input@.subrange(i as int, p.1 as int)
            == ser_list(ser_pair_items(headers_view(p.0@))),
        forall|hs: Seq<(Seq<u8>, Seq<u8>)>|
            (i + ser_list(ser_pair_items(hs)).len() <= input@.len() && input@.subrange(
                i as int,
                i + ser_list(ser_pair_items(hs)).len(),
            ) == ser_list(ser_pair_items(hs))) ==> (r matches Some(p) && headers_view(p.0@) == hs && p.1 == i
                + ser_list(ser_pair_items(hs)).len()),
{
    if i >= input.len() || input[i] != '[' as u8 {
        proof {
            assert forall|hs: Seq<(Seq<u8>, Seq<u8>)>|
                !(i + ser_list(ser_pair_items(hs)).len() <= input@.len() && input@.subrange(
                    i as int,
                    i + ser_list(ser_pair_items(hs)).len(),
                ) == ser_list(ser_pair_items(hs))) by {
                if i + ser_list(ser_pair_items(hs)).len() <= input@.len() && input@.subrange(
                    i as int,
                    i + ser_list(ser_pair_items(hs)).len(),
                ) == ser_list(ser_pair_items(hs)) {
                    lemma_pair_list_head(input@, i as int, hs);
                    assert(false);
                }
            }
        }
        return None;
    }
    let mut out: Vec<(Vec<u8>, Vec<u8>)> = Vec::new();
    let mut k: usize = i + 1;
    if k < input.len() && input[k] == ']' as u8 {
        assert(input@.subrange(i as int, k as int + 1) =~= ser_list(ser_pair_items(headers_view(out@))));
        proof {
            assert forall|hs: Seq<(Seq<u8>, Seq<u8>)>| #![trigger ser_pair_items(hs)]
                (i + ser_list(ser_pair_items(hs)).len() <= input@.len() && input@.subrange(
                    i as int,
                    i + ser_list(ser_pair_items(hs)).len(),
                ) == ser_list(ser_pair_items(hs))) implies (headers_view(out@) == hs && k + 1 == i + ser_list(
                ser_pair_items(hs),
            ).len()) by {
                lemma_pair_list_head(input@, i as int, hs);
                if hs.len() > 0 {
                    assert(false);
                }
                assert(headers_view(out@) =~= hs);
            }
        }
        return Some((out, k + 1));
    }
    let (first, j) = match parse_string_pair_at(input, k) {
        Some(p) => p,
        None => {
            proof {
                assert forall|hs: Seq<(Seq<u8>, Seq<u8>)>|
                    !(i + ser_list(ser_pair_items(hs)).len() <= input@.len() && input@.subrange(
                        i as int,
                        i + ser_list(ser_pair_items(hs)).len(),
                    ) == ser_list(ser_pair_items(hs))) by {
                    if i + ser_list(ser_pair_items(hs)).len() <= input@.len() && input@.subrange(
                        i as int,
                        i + ser_list(ser_pair_items(hs)).len(),
                    ) == ser_list(ser_pair_items(hs)) {
                        lemma_pair_list_head(input@, i as int, hs);
                        if hs.len() == 0 {
                            assert(false);
                        }
                        assert(input@.subrange(k as int, k + ser_string_pair(hs[0]).len()) =~= ser_string_pair(
                            hs[0],
                        )) by {
                            assert(forall|t: int|
                                0 <= t < ser_string_pair(hs[0]).len() ==> #[trigger] ser_string_pair(hs[0])[t]
                                    == input@.skip(i as int + 1)[t]);
                        }
                        assert((hs[0].0, hs[0].1) == hs[0]);
                        assert(false);
                    }
                }
            }
            return None;
        },
    };
    out.push(first);
    k = j;
    proof {
        let items = ser_pair_items(headers_view(out@));
        assert(items.len() == 1);
        assert(items.subrange(0, 1) =~= items);
        lemma_join_comma_snoc(items, 0);
        assert(input@.subrange(i as int + 1, k as int) == join_comma(items));
        assert forall|hs: Seq<(Seq<u8>, Seq<u8>)>| #![trigger ser_pair_items(hs)]
            (i + ser_list(ser_pair_items(hs)).len() <= input@.len() && input@.subrange(
                i as int,
                i + ser_list(ser_pair_items(hs)).len(),
            ) == ser_list(ser_pair_items(hs))) implies (out@.len() <= hs.len() && headers_view(out@)
            == hs.subrange(0, out@.len() as int) && input@.skip(k as int) == join_tail(
            ser_pair_items(hs.skip(out@.len() as int)),
        ) + (seq![']' as u8] + input@.skip(i + ser_list(ser_pair_items(hs)).len()))) by {
            lemma_pair_list_head(input@, i as int, hs);
            if hs.len() == 0 {
                assert(false);
            }
            assert(input@.subrange(i as int + 1, i + 1 + ser_string_pair(hs[0]).len()) =~= ser_string_pair(
                hs[0],
            )) by {
                assert(forall|t: int|
                    0 <= t < ser_string_pair(hs[0]).len() ==> #[trigger] ser_string_pair(hs[0])[t]
                        == input@.skip(i as int + 1)[t]);
            }
            assert((hs[0].0, hs[0].1) == hs[0]);
            assert(first.0@ == hs[0].0 && first.1@ == hs[0].1 && j == i + 1 + ser_string_pair(
                hs[0],
            ).len());
            assert(headers_view(out@) =~= hs.subrange(0, 1));
            assert(input@.skip(k as int) =~= input@.skip(i as int + 1).skip(ser_string_pair(
                hs[0],
            ).len() as int));
            assert(input@.skip(i as int + 1).skip(ser_string_pair(hs[0]).len() as int) =~= join_tail(
                ser_pair_items(hs.skip(1)),
            ) + (seq![']' as u8] + input@.skip(i + ser_list(ser_pair_items(hs)).len())));
            assert(input@.skip(k as int) == join_tail(ser_pair_items(hs.skip(1))) + (seq![']' as u8]
                + input@.skip(i + ser_list(ser_pair_items(hs)).len())));
        }
    }
    while k < input.len()
        invariant
            i < k <= input.len(),
            input@[i as int] == '[' as u8,
            out@.len() >= 1,
            input@.subrange(i as int + 1, k as int) == join_comma(ser_pair_items(headers_view(out@))),
            forall|hs: Seq<(Seq<u8>, Seq<u8>)>| #![trigger ser_pair_items(hs)]
                (i + ser_list(ser_pair_items(hs)).len() <= input@.len() && input@.subrange(
                    i as int,
                    i + ser_list(ser_pair_items(hs)).len(),
                ) == ser_list(ser_pair_items(hs))) ==> (out@.len() <= hs.len() && headers_view(out@)
                    == hs.subrange(0, out@.len() as int) && input@.skip(k as int) == join_tail(
                    ser_pair_items(hs.skip(out@.len() as int)),
                ) + (seq![']' as u8] + input@.skip(i + ser_list(ser_pair_items(hs)).len()))),
        decreases input.len() - k,
    {
        let ghost items0 = ser_pair_items(headers_view(out@));
        if input[k] == ']' as u8 {
            assert(input@.subrange(i as int, k as int + 1) =~= ser_list(items0));
            proof {
                assert forall|hs: Seq<(Seq<u8>, Seq<u8>)>|
                    (i + ser_list(ser_pair_items(hs)).len() <= input@.len() && input@.subrange(
                        i as int,
                        i + ser_list(ser_pair_items(hs)).len(),
                    ) == ser_list(ser_pair_items(hs))) implies (headers_view(out@) == hs && k + 1 == i
                    + ser_list(ser_pair_items(hs)).len()) by {
                    let u = hs.skip(out@.len() as int);
                    let tl = input@.skip(i + ser_list(ser_pair_items(hs)).len());
                    if u.len() > 0 {
                        assert(join_tail(ser_pair_items(u))[0] == ',' as u8);
                        assert(input@[k as int] == (join_tail(ser_pair_items(u)) + (seq![']' as u8]
                            + tl))[0]);
                        assert(false);
                    }
                    assert(headers_view(out@) =~= hs);
                    assert(input@.skip(k as int).len() == 1 + tl.len());
                }
            }
            return Some((out, k + 1));
        }
        if input[k] != ',' as u8 {
            proof {
                assert forall|hs: Seq<(Seq<u8>, Seq<u8>)>|
                    !(i + ser_list(ser_pair_items(hs)).len() <= input@.len() && input@.subrange(
                        i as int,
                        i + ser_list(ser_pair_items(hs)).len(),
                    ) == ser_list(ser_pair_items(hs))) by {
                    if i + ser_list(ser_pair_items(hs)).len() <= input@.len() && input@.subrange(
                        i as int,
                        i + ser_list(ser_pair_items(hs)).len(),
                    ) == ser_list(ser_pair_items(hs)) {
                        let u = hs.skip(out@.len() as int);
                        let tl = input@.skip(i + ser_list(ser_pair_items(hs)).len());
                        if u.len() == 0 {
                            assert(input@[k as int] == (join_tail(ser_pair_items(u)) + (seq![
                                ']' as u8,
                            ] + tl))[0]);
                            assert(false);
                        }
                        assert(join_tail(ser_pair_items(u))[0] == ',' as u8);
                        assert(input@[k as int] == (join_tail(ser_pair_items(u)) + (seq![']' as u8]
                            + tl))[0]);
                        assert(false);
                    }
                }
            }
            return None;
        }
        let (pair, j2) = match parse_string_pair_at(input, k + 1) {
            Some(p) => p,
            None => {
                proof {
                    assert forall|hs: Seq<(Seq<u8>, Seq<u8>)>|
                        !(i + ser_list(ser_pair_items(hs)).len() <= input@.len() && input@.subrange(
                            i as int,
                            i + ser_list(ser_pair_items(hs)).len(),
                        ) == ser_list(ser_pair_items(hs))) by {
                        if i + ser_list(ser_pair_items(hs)).len() <= input@.len() && input@.subrange(
                            i as int,
                            i + ser_list(ser_pair_items(hs)).len(),
                        ) == ser_list(ser_pair_items(hs)) {
                            let u = hs.skip(out@.len() as int);
                            let tl = input@.skip(i + ser_list(ser_pair_items(hs)).len());
                            if u.len() == 0 {
                                assert(input@[k as int] == (join_tail(ser_pair_items(u)) + (seq![
                                    ']' as u8,
                                ] + tl))[0]);
                                assert(false);
                            }
                            assert(join_tail(ser_pair_items(u)) == seq![',' as u8] + ser_pair_items(u)[0]
                                + join_tail(ser_pair_items(u).skip(1)));
                            assert(ser_pair_items(u)[0] == ser_string_pair(u[0]));
                            assert(input@.skip(k as int + 1) =~= input@.skip(k as int).skip(1));
                            assert(input@.skip(k as int).skip(1) =~= ser_string_pair(u[0]) + (join_tail(
                                ser_pair_items(u).skip(1),
                            ) + (seq![']' as u8] + tl)));
                            assert(input@.skip(k as int + 1) == ser_string_pair(u[0]) + (join_tail(
                                ser_pair_items(u).skip(1),
                            ) + (seq![']' as u8] + tl)));
                            assert(input@.subrange(k as int + 1, k + 1 + ser_string_pair(u[0]).len())
                                =~= ser_string_pair(u[0])) by {
                                assert(forall|t: int|
                                    0 <= t < ser_string_pair(u[0]).len() ==> #[trigger] ser_string_pair(u[0])[t]
                                        == input@.skip(k as int + 1)[t]);
                            }
                            assert((u[0].0, u[0].1) == u[0]);
                            assert(false);
                        }
                    }
                }
                return None;
            },
        };
        let ghost out0 = out@;
        out.push(pair);
        proof {
            let items1 = ser_pair_items(headers_view(out@));
            assert(items1 =~= items0.push(ser_string_pair((pair.0@, pair.1@))));
            lemma_join_comma_push(items0, ser_string_pair((pair.0@, pair.1@)));
            assert(input@.subrange(i as int + 1, j2 as int) =~= input@.subrange(
                i as int + 1,
                k as int,
            ) + seq![',' as u8] + input@.subrange(k as int + 1, j2 as int));
            assert(input@.subrange(i as int + 1, j2 as int) == join_comma(items1));
            assert forall|hs: Seq<(Seq<u8>, Seq<u8>)>| #![trigger ser_pair_items(hs)]
                (i + ser_list(ser_pair_items(hs)).len() <= input@.len() && input@.subrange(
                    i as int,
                    i + ser_list(ser_pair_items(hs)).len(),
                ) == ser_list(ser_pair_items(hs))) implies (out@.len() <= hs.len() && headers_view(out@)
                == hs.subrange(0, out@.len() as int) && input@.skip(j2 as int) == join_tail(
                ser_pair_items(hs.skip(out@.len() as int)),
            ) + (seq![']' as u8] + input@.skip(i + ser_list(ser_pair_items(hs)).len()))) by {
                let u = hs.skip(out0.len() as int);
                let tl = input@.skip(i + ser_list(ser_pair_items(hs)).len());
                if u.len() == 0 {
                    assert(input@[k as int] == (join_tail(ser_pair_items(u)) + (seq![']' as u8]
                        + tl))[0]);
                    assert(false);
                }
                assert(join_tail(ser_pair_items(u)) == seq![',' as u8] + ser_pair_items(u)[0] + join_tail(
                    ser_pair_items(u).skip(1),
                ));
                assert(ser_pair_items(u)[0] == ser_string_pair(u[0]));
                assert(input@.skip(k as int + 1) =~= input@.skip(k as int).skip(1));
                assert(input@.skip(k as int).skip(1) =~= ser_string_pair(u[0]) + (join_tail(
                    ser_pair_items(u).skip(1),
                ) + (seq![']' as u8] + tl)));
                assert(input@.skip(k as int + 1) == ser_string_pair(u[0]) + (join_tail(
                    ser_pair_items(u).skip(1),
                ) + (seq![']' as u8] + tl)));
                assert(input@.subrange(k as int + 1, k + 1 + ser_string_pair(u[0]).len()) =~= ser_string_pair(
                    u[0],
                )) by {
                    assert(forall|t: int|
                        0 <= t < ser_string_pair(u[0]).len() ==> #[trigger] ser_string_pair(u[0])[t]
                            == input@.skip(k as int + 1)[t]);
                }
                assert((u[0].0, u[0].1) == u[0]);
                assert(pair.0@ == u[0].0 && pair.1@ == u[0].1 && j2 == k + 1 + ser_string_pair(
                    u[0],
                ).len());
                assert(headers_view(out@) =~= headers_view(out0).push((pair.0@, pair.1@)));
                assert(hs[out0.len() as int] == u[0]);
                assert(headers_view(out@) =~= hs.subrange(0, out0.len() as int + 1));
                assert(ser_pair_items(u).skip(1) =~= ser_pair_items(hs.skip(out0.len() as int + 1)));
                assert(input@.skip(j2 as int) =~= input@.skip(k as int + 1).skip(ser_string_pair(
                    u[0],
                ).len() as int));
                assert(input@.skip(k as int + 1).skip(ser_string_pair(u[0]).len() as int) =~= join_tail(
                    ser_pair_items(hs.skip(out0.len() as int + 1)),
                ) + (seq![']' as u8] + tl));
                assert(input@.skip(j2 as int) == join_tail(ser_pair_items(hs.skip(out0.len() as int + 1)))
                    + (seq![']' as u8] + tl));
            }
        }
        k = j2;
    }
    proof {
        assert forall|hs: Seq<(Seq<u8>, Seq<u8>)>|
            !(i + ser_list(ser_pair_items(hs)).len() <= input@.len() && input@.subrange(
                i as int,
                i + ser_list(ser_pair_items(hs)).len(),
            ) == ser_list(ser_pair_items(hs))) by {
            if i + ser_list(ser_pair_items(hs)).len() <= input@.len() && input@.subrange(
                i as int,
                i + ser_list(ser_pair_items(hs)).len(),
            ) == ser_list(ser_pair_items(hs)) {
                assert(input@.skip(k as int).len() >= 1);
                assert(false);
            }
        }
    }
    None
}

/// Reads a canned response object at `i`.
#[verifier::rlimit(100)]
#[verifier::spinoff_prover]
fn parse_response_at(input: &[u8], i: usize) -> (r: Option<(MockResponse, usize)>)
    requires
        i <= input.len(),
    ensures
        r matches Some(p) ==> i < p.1 <= input.len() && input@.subrange(i as int, p.1 as int)
            == ser_response(p.0@),
{
    let lit = obj_status_bytes();
    let j1 = match eat(input, i, lit.as_slice()) {
        Some(j) => j,
        None => { return None; },
    };
    let (status, j2) = match parse_string_at(input, j1) {
        Some(p) => p,
        None => { return None; },
    };
    let lit = key_headers_bytes();
    let j3 = match eat(input, j2, lit.as_slice()) {
        Some(j) => j,
        None => { return None; },
    };
    let (headers, j4) = match parse_string_pairs_at(input, j3) {
        Some(p) => p,
        None => { return None; },
    };
    let lit = key_body_bytes();
    let j5 = match eat(input, j4, lit.as_slice()) {
        Some(j) => j,
        None => { return None; },
    };
    let (body, j6) = match parse_string_at(input, j5) {
        Some(p) => p,
        None => { return None; },
    };
    if j6 >= input.len() || input[j6] != '}' as u8 {
        return None;
    }
    let resp = MockResponse { status, headers, body };
    assert(input@.subrange(i as int, j6 as int + 1) =~= ser_response(resp@));
    Some((resp, j6 + 1))
}

/// Gluing the parts of a scanned mock record back together: when the input
/// splits at the given positions into the written parts of `m`, the whole
/// input is `m`'s written record.
#[verifier::rlimit(100)]
#[verifier::spinoff_prover]
proof fn lemma_mock_parts_compose(
    input: Seq<u8>,
    m: MockModel,
    j1: int,
    j2: int,
    j3: int,
    j4: int,
    j5: int,
    j6: int,
    j7: int,
    j8: int,
    j9: int,
    j10: int,
    j11: int,
    j12: int,
    j13: int,
    j14: int,
    j15: int,
    j16: int,
)
    requires
        0 <= j1 <= j2 <= j3 <= j4 <= j5 <= j6 <= j7 <= j8 <= j9 <= j10 <= j11 <= j12 <= j13 <= j14
            <= j15 <= j16 < input.len(),
        j16 + 1 == input.len(),
        input.subrange(0, j1) == obj_id(),
        input.subrange(j1, j2) == ser_string(m.id),
        input.subrange(j2, j3) == key_method(),
        input.subrange(j3, j4) == ser_string(m.method),
        input.subrange(j4, j5) == key_path(),
        input.subrange(j5, j6) == ser_matcher(m.path),
        input.subrange(j6, j7) == key_headers(),
        input.subrange(j7, j8) == ser_list(
            m.headers.map_values(|p: (Seq<u8>, MatcherModel)| ser_header_expectation(p)),
        ),
        input.subrange(j8, j9) == key_body(),
        input.subrange(j9, j10) == ser_matcher(m.body),
        input.subrange(j10, j11) == key_response(),
        input.subrange(j11, j12) == ser_response(m.response),
        input.subrange(j12, j13) == key_hits(),
        input.subrange(j13, j14) == dec_of(m.hits as nat),
        input.subrange(j14, j15) == key_expected(),
        input.subrange(j15, j16) == dec_of(m.expected_hits as nat),
        input[j16] == '}' as u8,
    ensures
        input == ser_mock(m),
{
    let n = input.len() as int;
    assert(input.subrange(j16, n) =~= seq!['}' as u8]);
    let t15 = dec_of(m.expected_hits as nat) + seq!['}' as u8];
    assert(input.subrange(j15, n) =~= input.subrange(j15, j16) + input.subrange(j16, n));
    assert(input.subrange(j15, n) == t15);
    let t14 = key_expected() + t15;
    assert(input.subrange(j14, n) =~= input.subrange(j14, j15) + input.subrange(j15, n));
    assert(input.subrange(j14, n) == t14);
    let t13 = dec_of(m.hits as nat) + t14;
    assert(input.subrange(j13, n) =~= input.subrange(j13, j14) + input.subrange(j14, n));
    assert(input.subrange(j13, n) == t13);
    let t12 = key_hits() + t13;
    assert(input.subrange(j12, n) =~= input.subrange(j12, j13) + input.subrange(j13, n));
    assert(input.subrange(j12, n) == t12);
    let t11 = ser_response(m.response) + t12;
    assert(input.subrange(j11, n) =~= input.subrange(j11, j12) + input.subrange(j12, n));
    assert(input.subrange(j11, n) == t11);
    let t10 = key_response() + t11;
    assert(input.subrange(j10, n) =~= input.subrange(j10, j11) + input.subrange(j11, n));
    assert(input.subrange(j10, n) == t10);
    let t9 = ser_matcher(m.body) + t10;
    assert(input.subrange(j9, n) =~= input.subrange(j9, j10) + input.subrange(j10, n));
    assert(input.subrange(j9, n) == t9);
    let t8 = key_body() + t9;
    assert(input.subrange(j8, n) =~= input.subrange(j8, j9) + input.subrange(j9, n));
    assert(input.subrange(j8, n) == t8);
    let t7 = ser_list(m.headers.map_values(|p: (Seq<u8>, MatcherModel)| ser_header_expectation(p)))
        + t8;
    assert(input.subrange(j7, n) =~= input.subrange(j7, j8) + input.subrange(j8, n));
    assert(input.subrange(j7, n) == t7);
    let t6 = key_headers() + t7;
    assert(input.subrange(j6, n) =~= input.subrange(j6, j7) + input.subrange(j7, n));
    assert(input.subrange(j6, n) == t6);
    let t5 = ser_matcher(m.path) + t6;
    assert(input.subrange(j5, n) =~= input.subrange(j5, j6) + input.subrange(j6, n));
    assert(input.subrange(j5, n) == t5);
    let t4 = key_path() + t5;
    assert(input.subrange(j4, n) =~= input.subrange(j4, j5) + input.subrange(j5, n));
    assert(input.subrange(j4, n) == t4);
    let t3 = ser_string(m.method) + t4;
    assert(input.subrange(j3, n) =~= input.subrange(j3, j4) + input.subrange(j4, n));
    assert(input.subrange(j3, n) == t3);
    let t2 = key_method() + t3;
    assert(input.subrange(j2, n) =~= input.subrange(j2, j3) + input.subrange(j3, n));
    assert(input.subrange(j2, n) == t2);
    let t1 = ser_string(m.id) + t2;
    assert(input.subrange(j1, n) =~= input.subrange(j1, j2) + input.subrange(j2, n));
    assert(input.subrange(j1, n) == t1);
    let t0 = obj_id() + t1;
    assert(input.subrange(0, n) =~= input.subrange(0, j1) + input.subrange(j1, n));
    assert(input.subrange(0, n) == t0);
    assert(input.subrange(0, n) =~= input);
    assert(t0 == ser_mock(m));
    assert(input == ser_mock(m));
}

/// Reads a whole mock record: the reader accepts exactly the writer's form,
/// so whatever it returns, the input was that mock's written record.
#[verifier::rlimit(100)]
#[verifier::spinoff_prover]
pub fn parse_mock(input: &[u8]) -> (r: Option<RemoteMock>)
    ensures
        r matches Some(m) ==> input@ == ser_mock(m@),
{
    let lit = obj_id_bytes();
    let j1 = match eat(input, 0, lit.as_slice()) {
        Some(j) => j,
        None => { return None; },
    };
    let (id, j2) = match parse_string_at(input, j1) {
        Some(p) => p,
        None => { return None; },
    };
    let lit = key_method_bytes();
    let j3 = match eat(input, j2, lit.as_slice()) {
        Some(j) => j,
        None => { return None; },
    };
    let (method, j4) = match parse_string_at(input, j3) {
        Some(p) => p,
        None => { return None; },
    };
    let lit = key_path_bytes();
    let j5 = match eat(input, j4, lit.as_slice()) {
        Some(j) => j,
        None => { return None; },
    };
    let (path, j6) = match parse_matcher_at(input, j5) {
        Some(p) => p,
        None => { return None; },
    };
    let lit = key_headers_bytes();
    let j7 = match eat(input, j6, lit.as_slice()) {
        Some(j) => j,
        None => { return None; },
    };
    let (headers, j8) = match parse_header_expectations_at(input, j7) {
        Some(p) => p,
        None => { return None; },
    };
    let lit = key_body_bytes();
    let j9 = match eat(input, j8, lit.as_slice()) {
        Some(j) => j,
        None => { return None; },
    };
    let (body, j10) = match parse_matcher_at(input, j9) {
        Some(p) => p,
        None => { return None; },
    };
    let lit = key_response_bytes();
    let j11 = match eat(input, j10, lit.as_slice()) {
        Some(j) => j,
        None => { return None; },
    };
    let (response, j12) = match parse_response_at(input, j11) {
        Some(p) => p,
        None => { return None; },
    };
    let lit = key_hits_bytes();
    let j13 = match eat(input, j12, lit.as_slice()) {
        Some(j) => j,
        None => { return None; },
    };
    let (hits, j14) = match parse_dec_at(input, j13) {
        Some(p) => p,
        None => { return None; },
    };
    let lit = key_expected_bytes();
    let j15 = match eat(input, j14, lit.as_slice()) {
        Some(j) => j,
        None => { return None; },
    };
    let (expected_hits, j16) = match parse_dec_at(input, j15) {
        Some(p) => p,
        None => { return None; },
    };
    if j16 >= input.len() || input[j16] != '}' as u8 {
        return None;
    }
    if j16 + 1 != input.len() {
        return None;
    }
    let m = RemoteMock { id, method, path, headers, body, response, hits, expected_hits };
    proof {
        assert(mock_headers_view(m.headers@) == m@.headers);
        lemma_mock_parts_compose(
            input@,
            m@,
            j1 as int,
            j2 as int,
            j3 as int,
            j4 as int,
            j5 as int,
            j6 as int,
            j7 as int,
            j8 as int,
            j9 as int,
            j10 as int,
            j11 as int,
            j12 as int,
            j13 as int,
            j14 as int,
            j15 as int,
            j16 as int,
        );
    }
    Some(m)
}

/// Splitting equal concatenations along equal-length heads.
proof fn lemma_split_concat(a: Seq<u8>, b: Seq<u8>, c: Seq<u8>, d: Seq<u8>)
    requires
        a + b == c + d,
        a.len() == c.len(),
    ensures
        a == c,
        b == d,
{
    assert(a =~= (a + b).subrange(0, a.len() as int));
    assert(c =~= (c + d).subrange(0, c.len() as int));
    assert(b =~= (a + b).subrange(a.len() as int, (a + b).len() as int));
    assert(d =~= (c + d).subrange(c.len() as int, (c + d).len() as int));
}

/// A written string's contents never contain a bare quote.
proof fn lemma_body_no_quote(s: Seq<u8>)
    ensures
        forall|k: int| 0 <= k < ser_str_body(s).len() ==> ser_str_body(s)[k] != q(),
    decreases s.len(),
{
    if s.len() > 0 {
        lemma_body_no_quote(s.skip(1));
        let e = esc_byte(s[0]);
        assert(forall|k: int| 0 <= k < e.len() ==> e[k] != q()) by {
            if needs_escape(s[0]) {
                let b0 = s[0];
                assert(b0 / 16 < 16 && b0 % 16 < 16) by (bit_vector);
                assert(hex_digit(b0 / 16) != q() && hex_digit(b0 % 16) != q());
            }
        }
        assert(forall|k: int|
            0 <= k < ser_str_body(s).len() ==> ser_str_body(s)[k] == (if k < e.len() {
                e[k]
            } else {
                ser_str_body(s.skip(1))[k - e.len()]
            }));
    }
}

/// Equal written contents come from equal strings.
proof fn lemma_ser_str_body_injective(s1: Seq<u8>, s2: Seq<u8>)
    requires
        ser_str_body(s1) == ser_str_body(s2),
    ensures
        s1 == s2,
    decreases s1.len(),
{
    if s1.len() == 0 {
        if s2.len() > 0 {
            assert(ser_str_body(s2).len() >= esc_byte(s2[0]).len());
        }
        assert(s1 =~= s2);
    } else if s2.len() == 0 {
        assert(ser_str_body(s1).len() >= esc_byte(s1[0]).len());
    } else {
        let e1 = esc_byte(s1[0]);
        let e2 = esc_byte(s2[0]);
        assert(ser_str_body(s1)[0] == e1[0]);
        assert(ser_str_body(s2)[0] == e2[0]);
        if needs_escape(s1[0]) != needs_escape(s2[0]) {
            assert(e1[0] != e2[0]);
            assert(false);
        }
        if needs_escape(s1[0]) {
            lemma_split_concat(e1, ser_str_body(s1.skip(1)), e2, ser_str_body(s2.skip(1)));
            let a1 = s1[0];
            let a2 = s2[0];
            assert(hex_digit(a1 / 16) == hex_digit(a2 / 16) && hex_digit(a1 % 16) == hex_digit(
                a2 % 16,
            ));
            assert(a1 / 16 < 16 && a1 % 16 < 16 && a2 / 16 < 16 && a2 % 16 < 16) by (bit_vector);
            assert(a1 / 16 == a2 / 16 && a1 % 16 == a2 % 16);
            assert(a1 == a2) by (bit_vector)
                requires
                    a1 / 16 == a2 / 16 && a1 % 16 == a2 % 16,
            ;
            lemma_ser_str_body_injective(s1.skip(1), s2.skip(1));
            assert(s1.len() == s2.len());
            assert(forall|k: int|
                1 <= k < s1.len() ==> s1[k] == s1.skip(1)[k - 1] && s2[k] == s2.skip(1)[k - 1]);
            assert(s1 =~= s2);
        } else {
            lemma_split_concat(e1, ser_str_body(s1.skip(1)), e2, ser_str_body(s2.skip(1)));
            assert(s1[0] == e1[0] && s2[0] == e2[0]);
            lemma_ser_str_body_injective(s1.skip(1), s2.skip(1));
            assert(s1.len() == s2.len());
            assert(forall|k: int|
                1 <= k < s1.len() ==> s1[k] == s1.skip(1)[k - 1] && s2[k] == s2.skip(1)[k - 1]);
            assert(s1 =~= s2);
        }
    }
}

/// A written string determines itself: whatever follows two equal streams
/// that each begin with a written string, the strings and the tails agree.
proof fn lemma_ser_string_self_delim(s1: Seq<u8>, s2: Seq<u8>, r1: Seq<u8>, r2: Seq<u8>)
    requires
        ser_string(s1) + r1 == ser_string(s2) + r2,
    ensures
        s1 == s2,
        r1 == r2,
{
    let b1 = ser_str_body(s1);
    let b2 = ser_str_body(s2);
    lemma_body_no_quote(s1);
    lemma_body_no_quote(s2);
    if b1.len() < b2.len() {
        let t = 1 + b1.len() as int;
        assert((ser_string(s1) + r1)[t] == q());
        assert((ser_string(s2) + r2)[t] == b2[t - 1]);
        assert(false);
    } else if b2.len() < b1.len() {
        let t = 1 + b2.len() as int;
        assert((ser_string(s2) + r2)[t] == q());
        assert((ser_string(s1) + r1)[t] == b1[t - 1]);
        assert(false);
    }
    lemma_split_concat(ser_string(s1), r1, ser_string(s2), r2);
    assert(b1 =~= ser_string(s1).subrange(1, 1 + b1.len() as int));
    assert(b2 =~= ser_string(s2).subrange(1, 1 + b2.len() as int));
    lemma_ser_str_body_injective(s1, s2);
}

/// A written number is all digits and never empty.
proof fn lemma_dec_digits(n: nat)
    ensures
        dec_of(n).len() >= 1,
        forall|k: int| 0 <= k < dec_of(n).len() ==> is_digit(dec_of(n)[k]),
    decreases n,
{
    if n >= 10 {
        lemma_dec_digits(n / 10);
        assert(forall|k: int|
            0 <= k < dec_of(n).len() ==> dec_of(n)[k] == (if k < dec_of(n / 10).len() {
                dec_of(n / 10)[k]
            } else {
                (48 + n % 10) as u8
            }));
    }
}

/// Equal written numbers are equal numbers.
proof fn lemma_dec_injective(n1: nat, n2: nat)
    requires
        dec_of(n1) == dec_of(n2),
    ensures
        n1 == n2,
    decreases n1,
{
    if n1 < 10 && n2 < 10 {
        assert(dec_of(n1) == seq![(48 + n1) as u8]);
        assert(dec_of(n2) == seq![(48 + n2) as u8]);
        assert(dec_of(n1)[0] == (48 + n1) as u8);
        assert(dec_of(n2)[0] == (48 + n2) as u8);
        assert(48 + n1 < 256 && 48 + n2 < 256);
        assert(n1 == n2);
    } else if n1 < 10 && n2 >= 10 {
        lemma_dec_digits(n2 / 10);
        assert(dec_of(n2).len() >= 2);
    } else if n1 >= 10 && n2 < 10 {
        lemma_dec_digits(n1 / 10);
        assert(dec_of(n1).len() >= 2);
    } else {
        lemma_dec_digits(n1 / 10);
        lemma_dec_digits(n2 / 10);
        assert(dec_of(n1 / 10).len() == dec_of(n2 / 10).len()) by {
            assert(dec_of(n1).len() == dec_of(n1 / 10).len() + 1);
            assert(dec_of(n2).len() == dec_of(n2 / 10).len() + 1);
        }
        lemma_split_concat(
            dec_of(n1 / 10),
            seq![(48 + n1 % 10) as u8],
            dec_of(n2 / 10),
            seq![(48 + n2 % 10) as u8],
        );
        lemma_dec_injective(n1 / 10, n2 / 10);
        assert(seq![(48 + n1 % 10) as u8][0] == seq![(48 + n2 % 10) as u8][0]);
        assert(n1 % 10 < 10 && n2 % 10 < 10);
        assert(n1 % 10 == n2 % 10);
        vstd::arithmetic::div_mod::lemma_fundamental_div_mod(n1 as int, 10);
        vstd::arithmetic::div_mod::lemma_fundamental_div_mod(n2 as int, 10);
        assert(n1 as int == 10 * ((n1 as int) / 10) + (n1 as int) % 10);
        assert(n2 as int == 10 * ((n2 as int) / 10) + (n2 as int) % 10);
        assert(n1 == n2);
    }
}

/// A written number followed by a non-digit determines itself.
proof fn lemma_dec_self_delim(n1: nat, n2: nat, r1: Seq<u8>, r2: Seq<u8>)
    requires
        dec_of(n1) + r1 == dec_of(n2) + r2,
        r1.len() > 0,
        !is_digit(r1[0]),
        r2.len() > 0,
        !is_digit(r2[0]),
    ensures
        n1 == n2,
        r1 == r2,
{
    lemma_dec_digits(n1);
    lemma_dec_digits(n2);
    if dec_of(n1).len() < dec_of(n2).len() {
        let t = dec_of(n1).len() as int;
        assert((dec_of(n1) + r1)[t] == r1[0]);
        assert((dec_of(n2) + r2)[t] == dec_of(n2)[t]);
        assert(false);
    } else if dec_of(n2).len() < dec_of(n1).len() {
        let t = dec_of(n2).len() as int;
        assert((dec_of(n2) + r2)[t] == r2[0]);
        assert((dec_of(n1) + r1)[t] == dec_of(n1)[t]);
        assert(false);
    }
    lemma_split_concat(dec_of(n1), r1, dec_of(n2), r2);
    lemma_dec_injective(n1, n2);
}

/// A written matcher determines itself.
proof fn lemma_ser_matcher_self_delim(m1: MatcherModel, m2: MatcherModel, r1: Seq<u8>, r2: Seq<u8>)
    requires
        ser_matcher(m1) + r1 == ser_matcher(m2) + r2,
    ensures
        m1 == m2,
        r1 == r2,
{
    let t1 = ser_matcher(m1) + r1;
    let t2 = ser_matcher(m2) + r2;
    // The first byte separates a bare string from the tagged objects; the
    // third separates the pattern tag from the absence marker.
    match (m1, m2) {
        (MatcherModel::Exact(s1), MatcherModel::Exact(s2)) => {
            assert(ser_matcher(m1) + r1 =~= ser_string(s1) + r1);
            assert(ser_matcher(m2) + r2 =~= ser_string(s2) + r2);
            lemma_ser_string_self_delim(s1, s2, r1, r2);
        },
        (MatcherModel::Regexp(p1), MatcherModel::Regexp(p2)) => {
            let x1 = ser_string(p1) + (seq!['}' as u8] + r1);
            let x2 = ser_string(p2) + (seq!['}' as u8] + r2);
            assert(t1 =~= obj_regex() + x1);
            assert(t2 =~= obj_regex() + x2);
            lemma_split_concat(obj_regex(), x1, obj_regex(), x2);
            lemma_ser_string_self_delim(p1, p2, seq!['}' as u8] + r1, seq!['}' as u8] + r2);
            lemma_split_concat(seq!['}' as u8], r1, seq!['}' as u8], r2);
        },
        (MatcherModel::Missing, MatcherModel::Missing) => {
            assert(t1 =~= lit_missing() + r1);
            assert(t2 =~= lit_missing() + r2);
            lemma_split_concat(lit_missing(), r1, lit_missing(), r2);
        },
        (MatcherModel::Exact(s1), _) => {
            assert(t1[0] == q());
            assert(t2[0] == '{' as u8);
            assert(false);
        },
        (_, MatcherModel::Exact(s2)) => {
            assert(t2[0] == q());
            assert(t1[0] == '{' as u8);
            assert(false);
        },
        (MatcherModel::Regexp(p1), MatcherModel::Missing) => {
            assert(t1[2] == obj_regex()[2]);
            assert(t2[2] == lit_missing()[2]);
            assert(false);
        },
        (MatcherModel::Missing, MatcherModel::Regexp(p2)) => {
            assert(t1[2] == lit_missing()[2]);
            assert(t2[2] == obj_regex()[2]);
            assert(false);
        },
    }
}

/// A written header expectation determines itself.
proof fn lemma_expectation_self_delim(
    p1: (Seq<u8>, MatcherModel),
    p2: (Seq<u8>, MatcherModel),
    r1: Seq<u8>,
    r2: Seq<u8>,
)
    requires
        ser_header_expectation(p1) + r1 == ser_header_expectation(p2) + r2,
    ensures
        p1 == p2,
        r1 == r2,
{
    let x1 = ser_string(p1.0) + (seq![',' as u8] + (ser_matcher(p1.1) + (seq![']' as u8] + r1)));
    let x2 = ser_string(p2.0) + (seq![',' as u8] + (ser_matcher(p2.1) + (seq![']' as u8] + r2)));
    assert(ser_header_expectation(p1) + r1 =~= seq!['[' as u8] + x1);
    assert(ser_header_expectation(p2) + r2 =~= seq!['[' as u8] + x2);
    lemma_split_concat(seq!['[' as u8], x1, seq!['[' as u8], x2);
    lemma_ser_string_self_delim(
        p1.0,
        p2.0,
        seq![',' as u8] + (ser_matcher(p1.1) + (seq![']' as u8] + r1)),
        seq![',' as u8] + (ser_matcher(p2.1) + (seq![']' as u8] + r2)),
    );
    lemma_split_concat(
        seq![',' as u8],
        ser_matcher(p1.1) + (seq![']' as u8] + r1),
        seq![',' as u8],
        ser_matcher(p2.1) + (seq![']' as u8] + r2),
    );
    lemma_ser_matcher_self_delim(p1.1, p2.1, seq![']' as u8] + r1, seq![']' as u8] + r2);
    lemma_split_concat(seq![']' as u8], r1, seq![']' as u8], r2);
    assert(p1 == p2);
}

/// A written response header determines itself.
proof fn lemma_string_pair_self_delim(
    p1: (Seq<u8>, Seq<u8>),
    p2: (Seq<u8>, Seq<u8>),
    r1: Seq<u8>,
    r2: Seq<u8>,
)
    requires
        ser_string_pair(p1) + r1 == ser_string_pair(p2) + r2,
    ensures
        p1 == p2,
        r1 == r2,
{
    let x1 = ser_string(p1.0) + (seq![',' as u8] + (ser_string(p1.1) + (seq![']' as u8] + r1)));
    let x2 = ser_string(p2.0) + (seq![',' as u8] + (ser_string(p2.1) + (seq![']' as u8] + r2)));
    assert(ser_string_pair(p1) + r1 =~= seq!['[' as u8] + x1);
    assert(ser_string_pair(p2) + r2 =~= seq!['[' as u8] + x2);
    lemma_split_concat(seq!['[' as u8], x1, seq!['[' as u8], x2);
    lemma_ser_string_self_delim(
        p1.0,
        p2.0,
        seq![',' as u8] + (ser_string(p1.1) + (seq![']' as u8] + r1)),
        seq![',' as u8] + (ser_string(p2.1) + (seq![']' as u8] + r2)),
    );
    lemma_split_concat(
        seq![',' as u8],
        ser_string(p1.1) + (seq![']' as u8] + r1),
        seq![',' as u8],
        ser_string(p2.1) + (seq![']' as u8] + r2),
    );
    lemma_ser_string_self_delim(p1.1, p2.1, seq![']' as u8] + r1, seq![']' as u8] + r2);
    lemma_split_concat(seq![']' as u8], r1, seq![']' as u8], r2);
    assert(p1 == p2);
}

/// A written tail of header expectations, closed by `]`, determines itself.
proof fn lemma_expectations_tail_self_delim(
    hs1: Seq<(Seq<u8>, MatcherModel)>,
    hs2: Seq<(Seq<u8>, MatcherModel)>,
    r1: Seq<u8>,
    r2: Seq<u8>,
)
    requires
        join_tail(hs1.map_values(|p: (Seq<u8>, MatcherModel)| ser_header_expectation(p))) + (seq![
            ']' as u8,
        ] + r1) == join_tail(
            hs2.map_values(|p: (Seq<u8>, MatcherModel)| ser_header_expectation(p)),
        ) + (seq![']' as u8] + r2),
    ensures
        hs1 == hs2,
        r1 == r2,
    decreases hs1.len(),
{
    let items1 = hs1.map_values(|p: (Seq<u8>, MatcherModel)| ser_header_expectation(p));
    let items2 = hs2.map_values(|p: (Seq<u8>, MatcherModel)| ser_header_expectation(p));
    let t1 = join_tail(items1) + (seq![']' as u8] + r1);
    let t2 = join_tail(items2) + (seq![']' as u8] + r2);
    if hs1.len() == 0 && hs2.len() == 0 {
        assert(t1 =~= seq![']' as u8] + r1);
        assert(t2 =~= seq![']' as u8] + r2);
        lemma_split_concat(seq![']' as u8], r1, seq![']' as u8], r2);
        assert(hs1 =~= hs2);
    } else if hs1.len() == 0 {
        assert(t1[0] == ']' as u8);
        assert(t2[0] == ',' as u8);
        assert(false);
    } else if hs2.len() == 0 {
        assert(t1[0] == ',' as u8);
        assert(t2[0] == ']' as u8);
        assert(false);
    } else {
        let x1 = ser_header_expectation(hs1[0]) + (join_tail(items1.skip(1)) + (seq![']' as u8]
            + r1));
        let x2 = ser_header_expectation(hs2[0]) + (join_tail(items2.skip(1)) + (seq![']' as u8]
            + r2));
        assert(t1 =~= seq![',' as u8] + x1);
        assert(t2 =~= seq![',' as u8] + x2);
        lemma_split_concat(seq![',' as u8], x1, seq![',' as u8], x2);
        lemma_expectation_self_delim(
            hs1[0],
            hs2[0],
            join_tail(items1.skip(1)) + (seq![']' as u8] + r1),
            join_tail(items2.skip(1)) + (seq![']' as u8] + r2),
        );
        assert(items1.skip(1) =~= hs1.skip(1).map_values(
            |p: (Seq<u8>, MatcherModel)| ser_header_expectation(p),
        ));
        assert(items2.skip(1) =~= hs2.skip(1).map_values(
            |p: (Seq<u8>, MatcherModel)| ser_header_expectation(p),
        ));
        lemma_expectations_tail_self_delim(hs1.skip(1), hs2.skip(1), r1, r2);
        assert(hs1.len() == hs2.len());
        assert(hs1[0] == hs2[0]);
        assert(forall|k: int|
            1 <= k < hs1.len() ==> hs1[k] == hs1.skip(1)[k - 1] && hs2[k] == hs2.skip(1)[k - 1]);
        assert(hs1 =~= hs2);
    }
}

/// A written list of header expectations determines itself.
proof fn lemma_expectations_list_self_delim(
    hs1: Seq<(Seq<u8>, MatcherModel)>,
    hs2: Seq<(Seq<u8>, MatcherModel)>,
    r1: Seq<u8>,
    r2: Seq<u8>,
)
    requires
        ser_list(hs1.map_values(|p: (Seq<u8>, MatcherModel)| ser_header_expectation(p))) + r1
            == ser_list(hs2.map_values(|p: (Seq<u8>, MatcherModel)| ser_header_expectation(p)))
            + r2,
    ensures
        hs1 == hs2,
        r1 == r2,
{
    let items1 = hs1.map_values(|p: (Seq<u8>, MatcherModel)| ser_header_expectation(p));
    let items2 = hs2.map_values(|p: (Seq<u8>, MatcherModel)| ser_header_expectation(p));
    let x1 = join_comma(items1) + (seq![']' as u8] + r1);
    let x2 = join_comma(items2) + (seq![']' as u8] + r2);
    assert(ser_list(items1) + r1 =~= seq!['[' as u8] + x1);
    assert(ser_list(items2) + r2 =~= seq!['[' as u8] + x2);
    lemma_split_concat(seq!['[' as u8], x1, seq!['[' as u8], x2);
    if hs1.len() == 0 && hs2.len() == 0 {
        assert(x1 =~= seq![']' as u8] + r1);
        assert(x2 =~= seq![']' as u8] + r2);
        lemma_split_concat(seq![']' as u8], r1, seq![']' as u8], r2);
        assert(hs1 =~= hs2);
    } else if hs1.len() == 0 {
        assert(x1[0] == ']' as u8);
        assert(x2[0] == ser_header_expectation(hs2[0])[0]);
        assert(ser_header_expectation(hs2[0])[0] == '[' as u8);
        assert(false);
    } else if hs2.len() == 0 {
        assert(x2[0] == ']' as u8);
        assert(x1[0] == ser_header_expectation(hs1[0])[0]);
        assert(ser_header_expectation(hs1[0])[0] == '[' as u8);
        assert(false);
    } else {
        let y1 = ser_header_expectation(hs1[0]) + (join_tail(items1.skip(1)) + (seq![']' as u8]
            + r1));
        let y2 = ser_header_expectation(hs2[0]) + (join_tail(items2.skip(1)) + (seq![']' as u8]
            + r2));
        assert(x1 =~= y1);
        assert(x2 =~= y2);
        lemma_expectation_self_delim(
            hs1[0],
            hs2[0],
            join_tail(items1.skip(1)) + (seq![']' as u8] + r1),
            join_tail(items2.skip(1)) + (seq![']' as u8] + r2),
        );
        assert(items1.skip(1) =~= hs1.skip(1).map_values(
            |p: (Seq<u8>, MatcherModel)| ser_header_expectation(p),
        ));
        assert(items2.skip(1) =~= hs2.skip(1).map_values(
            |p: (Seq<u8>, MatcherModel)| ser_header_expectation(p),
        ));
        lemma_expectations_tail_self_delim(hs1.skip(1), hs2.skip(1), r1, r2);
        assert(hs1.len() == hs2.len());
        assert(hs1[0] == hs2[0]);
        assert(forall|k: int|
            1 <= k < hs1.len() ==> hs1[k] == hs1.skip(1)[k - 1] && hs2[k] == hs2.skip(1)[k - 1]);
        assert(hs1 =~= hs2);
    }
}

/// A written tail of response headers, closed by `]`, determines itself.
proof fn lemma_string_pairs_tail_self_delim(
    hs1: Seq<(Seq<u8>, Seq<u8>)>,
    hs2: Seq<(Seq<u8>, Seq<u8>)>,
    r1: Seq<u8>,
    r2: Seq<u8>,
)
    requires
        join_tail(hs1.map_values(|p: (Seq<u8>, Seq<u8>)| ser_string_pair(p))) + (seq![']' as u8]
            + r1) == join_tail(hs2.map_values(|p: (Seq<u8>, Seq<u8>)| ser_string_pair(p))) + (seq![
            ']' as u8,
        ] + r2),
    ensures
        hs1 == hs2,
        r1 == r2,
    decreases hs1.len(),
{
    let items1 = hs1.map_values(|p: (Seq<u8>, Seq<u8>)| ser_string_pair(p));
    let items2 = hs2.map_values(|p: (Seq<u8>, Seq<u8>)| ser_string_pair(p));
    let t1 = join_tail(items1) + (seq![']' as u8] + r1);
    let t2 = join_tail(items2) + (seq![']' as u8] + r2);
    if hs1.len() == 0 && hs2.len() == 0 {
        assert(t1 =~= seq![']' as u8] + r1);
        assert(t2 =~= seq![']' as u8] + r2);
        lemma_split_concat(seq![']' as u8], r1, seq![']' as u8], r2);
        assert(hs1 =~= hs2);
    } else if hs1.len() == 0 {
        assert(t1[0] == ']' as u8);
        assert(t2[0] == ',' as u8);
        assert(false);
    } else if hs2.len() == 0 {
        assert(t1[0] == ',' as u8);
        assert(t2[0] == ']' as u8);
        assert(false);
    } else {
        let x1 = ser_string_pair(hs1[0]) + (join_tail(items1.skip(1)) + (seq![']' as u8] + r1));
        let x2 = ser_string_pair(hs2[0]) + (join_tail(items2.skip(1)) + (seq![']' as u8] + r2));
        assert(t1 =~= seq![',' as u8] + x1);
        assert(t2 =~= seq![',' as u8] + x2);
        lemma_split_concat(seq![',' as u8], x1, seq![',' as u8], x2);
        lemma_string_pair_self_delim(
            hs1[0],
            hs2[0],
            join_tail(items1.skip(1)) + (seq![']' as u8] + r1),
            join_tail(items2.skip(1)) + (seq![']' as u8] + r2),
        );
        assert(items1.skip(1) =~= hs1.skip(1).map_values(
            |p: (Seq<u8>, Seq<u8>)| ser_string_pair(p),
        ));
        assert(items2.skip(1) =~= hs2.skip(1).map_values(
            |p: (Seq<u8>, Seq<u8>)| ser_string_pair(p),
        ));
        lemma_string_pairs_tail_self_delim(hs1.skip(1), hs2.skip(1), r1, r2);
        assert(hs1.len() == hs2.len());
        assert(hs1[0] == hs2[0]);
        assert(forall|k: int|
            1 <= k < hs1.len() ==> hs1[k] == hs1.skip(1)[k - 1] && hs2[k] == hs2.skip(1)[k - 1]);
        assert(hs1 =~= hs2);
    }
}

/// A written list of response headers determines itself.
proof fn lemma_string_pairs_list_self_delim(
    hs1: Seq<(Seq<u8>, Seq<u8>)>,
    hs2: Seq<(Seq<u8>, Seq<u8>)>,
    r1: Seq<u8>,
    r2: Seq<u8>,
)
    requires
        ser_list(hs1.map_values(|p: (Seq<u8>, Seq<u8>)| ser_string_pair(p))) + r1 == ser_list(
            hs2.map_values(|p: (Seq<u8>, Seq<u8>)| ser_string_pair(p)),
        ) + r2,
    ensures
        hs1 == hs2,
        r1 == r2,
{
    let items1 = hs1.map_values(|p: (Seq<u8>, Seq<u8>)| ser_string_pair(p));
    let items2 = hs2.map_values(|p: (Seq<u8>, Seq<u8>)| ser_string_pair(p));
    let x1 = join_comma(items1) + (seq![']' as u8] + r1);
    let x2 = join_comma(items2) + (seq![']' as u8] + r2);
    assert(ser_list(items1) + r1 =~= seq!['[' as u8] + x1);
    assert(ser_list(items2) + r2 =~= seq!['[' as u8] + x2);
    lemma_split_concat(seq!['[' as u8], x1, seq!['[' as u8], x2);
    if hs1.len() == 0 && hs2.len() == 0 {
        assert(x1 =~= seq![']' as u8] + r1);
        assert(x2 =~= seq![']' as u8] + r2);
        lemma_split_concat(seq![']' as u8], r1, seq![']' as u8], r2);
        assert(hs1 =~= hs2);
    } else if hs1.len() == 0 {
        assert(x1[0] == ']' as u8);
        assert(x2[0] == ser_string_pair(hs2[0])[0]);
        assert(ser_string_pair(hs2[0])[0] == '[' as u8);
        assert(false);
    } else if hs2.len() == 0 {
        assert(x2[0] == ']' as u8);
        assert(x1[0] == ser_string_pair(hs1[0])[0]);
        assert(ser_string_pair(hs1[0])[0] == '[' as u8);
        assert(false);
    } else {
        let y1 = ser_string_pair(hs1[0]) + (join_tail(items1.skip(1)) + (seq![']' as u8] + r1));
        let y2 = ser_string_pair(hs2[0]) + (join_tail(items2.skip(1)) + (seq![']' as u8] + r2));
        assert(x1 =~= y1);
        assert(x2 =~= y2);
        lemma_string_pair_self_delim(
            hs1[0],
            hs2[0],
            join_tail(items1.skip(1)) + (seq![']' as u8] + r1),
            join_tail(items2.skip(1)) + (seq![']' as u8] + r2),
        );
        assert(items1.skip(1) =~= hs1.skip(1).map_values(
            |p: (Seq<u8>, Seq<u8>)| ser_string_pair(p),
        ));
        assert(items2.skip(1) =~= hs2.skip(1).map_values(
            |p: (Seq<u8>, Seq<u8>)| ser_string_pair(p),
        ));
        lemma_string_pairs_tail_self_delim(hs1.skip(1), hs2.skip(1), r1, r2);
        assert(hs1.len() == hs2.len());
        assert(hs1[0] == hs2[0]);
        assert(forall|k: int|
            1 <= k < hs1.len() ==> hs1[k] == hs1.skip(1)[k - 1] && hs2[k] == hs2.skip(1)[k - 1]);
        assert(hs1 =~= hs2);
    }
}

/// A written canned response determines itself.
proof fn lemma_ser_response_self_delim(
    v1: ResponseModel,
    v2: ResponseModel,
    r1: Seq<u8>,
    r2: Seq<u8>,
)
    requires
        ser_response(v1) + r1 == ser_response(v2) + r2,
    ensures
        v1 == v2,
        r1 == r2,
{
    let list1 = ser_list(v1.headers.map_values(|p: (Seq<u8>, Seq<u8>)| ser_string_pair(p)));
    let list2 = ser_list(v2.headers.map_values(|p: (Seq<u8>, Seq<u8>)| ser_string_pair(p)));
    let x1 = ser_string(v1.status) + (key_headers() + (list1 + (key_body() + (ser_string(v1.body)
        + (seq!['}' as u8] + r1)))));
    let x2 = ser_string(v2.status) + (key_headers() + (list2 + (key_body() + (ser_string(v2.body)
        + (seq!['}' as u8] + r2)))));
    assert(ser_response(v1) + r1 =~= obj_status() + x1);
    assert(ser_response(v2) + r2 =~= obj_status() + x2);
    assert(obj_status() + x1 == obj_status() + x2);
    lemma_split_concat(obj_status(), x1, obj_status(), x2);
    lemma_ser_string_self_delim(
        v1.status,
        v2.status,
        key_headers() + (list1 + (key_body() + (ser_string(v1.body) + (seq!['}' as u8] + r1)))),
        key_headers() + (list2 + (key_body() + (ser_string(v2.body) + (seq!['}' as u8] + r2)))),
    );
    lemma_split_concat(
        key_headers(),
        list1 + (key_body() + (ser_string(v1.body) + (seq!['}' as u8] + r1))),
        key_headers(),
        list2 + (key_body() + (ser_string(v2.body) + (seq!['}' as u8] + r2))),
    );
    lemma_string_pairs_list_self_delim(
        v1.headers,
        v2.headers,
        key_body() + (ser_string(v1.body) + (seq!['}' as u8] + r1)),
        key_body() + (ser_string(v2.body) + (seq!['}' as u8] + r2)),
    );
    lemma_split_concat(
        key_body(),
        ser_string(v1.body) + (seq!['}' as u8] + r1),
        key_body(),
        ser_string(v2.body) + (seq!['}' as u8] + r2),
    );
    lemma_ser_string_self_delim(v1.body, v2.body, seq!['}' as u8] + r1, seq!['}' as u8] + r2);
    lemma_split_concat(seq!['}' as u8], r1, seq!['}' as u8], r2);
}

/// Law: mock records are unambiguous — two mocks with the same written
/// record are the same mock. With the register contract this pins a
/// re-registration: an accepted record appends exactly the mock it was
/// fetched from.
#[verifier::rlimit(100)]
#[verifier::spinoff_prover]
pub proof fn lemma_ser_mock_injective(m1: MockModel, m2: MockModel)
    requires
        ser_mock(m1) == ser_mock(m2),
    ensures
        m1 == m2,
{
    let hl1 = ser_list(
        m1.headers.map_values(|p: (Seq<u8>, MatcherModel)| ser_header_expectation(p)),
    );
    let hl2 = ser_list(
        m2.headers.map_values(|p: (Seq<u8>, MatcherModel)| ser_header_expectation(p)),
    );
    let x1 = ser_string(m1.id) + (key_method() + (ser_string(m1.method) + (key_path() + (
    ser_matcher(m1.path) + (key_headers() + (hl1 + (key_body() + (ser_matcher(m1.body) + (
    key_response() + (ser_response(m1.response) + (key_hits() + (dec_of(m1.hits as nat) + (
    key_expected() + (dec_of(m1.expected_hits as nat) + seq!['}' as u8]))))))))))))));
    let x2 = ser_string(m2.id) + (key_method() + (ser_string(m2.method) + (key_path() + (
    ser_matcher(m2.path) + (key_headers() + (hl2 + (key_body() + (ser_matcher(m2.body) + (
    key_response() + (ser_response(m2.response) + (key_hits() + (dec_of(m2.hits as nat) + (
    key_expected() + (dec_of(m2.expected_hits as nat) + seq!['}' as u8]))))))))))))));
    assert(ser_mock(m1) =~= obj_id() + x1);
    assert(ser_mock(m2) =~= obj_id() + x2);
    assert(obj_id() + x1 == obj_id() + x2);
    lemma_split_concat(obj_id(), x1, obj_id(), x2);
    let after_id_1 = key_method() + (ser_string(m1.method) + (key_path() + (ser_matcher(m1.path)
        + (key_headers() + (hl1 + (key_body() + (ser_matcher(m1.body) + (key_response() + (
    ser_response(m1.response) + (key_hits() + (dec_of(m1.hits as nat) + (key_expected() + (dec_of(
        m1.expected_hits as nat,
    ) + seq!['}' as u8])))))))))))));
    let after_id_2 = key_method() + (ser_string(m2.method) + (key_path() + (ser_matcher(m2.path)
        + (key_headers() + (hl2 + (key_body() + (ser_matcher(m2.body) + (key_response() + (
    ser_response(m2.response) + (key_hits() + (dec_of(m2.hits as nat) + (key_expected() + (dec_of(
        m2.expected_hits as nat,
    ) + seq!['}' as u8])))))))))))));
    lemma_ser_string_self_delim(m1.id, m2.id, after_id_1, after_id_2);
    let a1 = ser_string(m1.method) + (key_path() + (ser_matcher(m1.path) + (key_headers() + (hl1
        + (key_body() + (ser_matcher(m1.body) + (key_response() + (ser_response(m1.response) + (
    key_hits() + (dec_of(m1.hits as nat) + (key_expected() + (dec_of(m1.expected_hits as nat)
        + seq!['}' as u8]))))))))))));
    let a2 = ser_string(m2.method) + (key_path() + (ser_matcher(m2.path) + (key_headers() + (hl2
        + (key_body() + (ser_matcher(m2.body) + (key_response() + (ser_response(m2.response) + (
    key_hits() + (dec_of(m2.hits as nat) + (key_expected() + (dec_of(m2.expected_hits as nat)
        + seq!['}' as u8]))))))))))));
    lemma_split_concat(key_method(), a1, key_method(), a2);
    let b1 = key_path() + (ser_matcher(m1.path) + (key_headers() + (hl1 + (key_body() + (
    ser_matcher(m1.body) + (key_response() + (ser_response(m1.response) + (key_hits() + (dec_of(
        m1.hits as nat,
    ) + (key_expected() + (dec_of(m1.expected_hits as nat) + seq!['}' as u8])))))))))));
    let b2 = key_path() + (ser_matcher(m2.path) + (key_headers() + (hl2 + (key_body() + (
    ser_matcher(m2.body) + (key_response() + (ser_response(m2.response) + (key_hits() + (dec_of(
        m2.hits as nat,
    ) + (key_expected() + (dec_of(m2.expected_hits as nat) + seq!['}' as u8])))))))))));
    lemma_ser_string_self_delim(m1.method, m2.method, b1, b2);
    let c1 = ser_matcher(m1.path) + (key_headers() + (hl1 + (key_body() + (ser_matcher(m1.body)
        + (key_response() + (ser_response(m1.response) + (key_hits() + (dec_of(m1.hits as nat) + (
    key_expected() + (dec_of(m1.expected_hits as nat) + seq!['}' as u8]))))))))));
    let c2 = ser_matcher(m2.path) + (key_headers() + (hl2 + (key_body() + (ser_matcher(m2.body)
        + (key_response() + (ser_response(m2.response) + (key_hits() + (dec_of(m2.hits as nat) + (
    key_expected() + (dec_of(m2.expected_hits as nat) + seq!['}' as u8]))))))))));
    lemma_split_concat(key_path(), c1, key_path(), c2);
    let d1 = key_headers() + (hl1 + (key_body() + (ser_matcher(m1.body) + (key_response() + (
    ser_response(m1.response) + (key_hits() + (dec_of(m1.hits as nat) + (key_expected() + (dec_of(
        m1.expected_hits as nat,
    ) + seq!['}' as u8])))))))));
    let d2 = key_headers() + (hl2 + (key_body() + (ser_matcher(m2.body) + (key_response() + (
    ser_response(m2.response) + (key_hits() + (dec_of(m2.hits as nat) + (key_expected() + (dec_of(
        m2.expected_hits as nat,
    ) + seq!['}' as u8])))))))));
    lemma_ser_matcher_self_delim(m1.path, m2.path, d1, d2);
    let e1 = hl1 + (key_body() + (ser_matcher(m1.body) + (key_response() + (ser_response(
        m1.response,
    ) + (key_hits() + (dec_of(m1.hits as nat) + (key_expected() + (dec_of(m1.expected_hits as nat)
        + seq!['}' as u8]))))))));
    let e2 = hl2 + (key_body() + (ser_matcher(m2.body) + (key_response() + (ser_response(
        m2.response,
    ) + (key_hits() + (dec_of(m2.hits as nat) + (key_expected() + (dec_of(m2.expected_hits as nat)
        + seq!['}' as u8]))))))));
    lemma_split_concat(key_headers(), e1, key_headers(), e2);
    let f1 = key_body() + (ser_matcher(m1.body) + (key_response() + (ser_response(m1.response) + (
    key_hits() + (dec_of(m1.hits as nat) + (key_expected() + (dec_of(m1.expected_hits as nat)
        + seq!['}' as u8])))))));
    let f2 = key_body() + (ser_matcher(m2.body) + (key_response() + (ser_response(m2.response) + (
    key_hits() + (dec_of(m2.hits as nat) + (key_expected() + (dec_of(m2.expected_hits as nat)
        + seq!['}' as u8])))))));
    lemma_expectations_list_self_delim(m1.headers, m2.headers, f1, f2);
    let g1 = ser_matcher(m1.body) + (key_response() + (ser_response(m1.response) + (key_hits() + (
    dec_of(m1.hits as nat) + (key_expected() + (dec_of(m1.expected_hits as nat) + seq![
        '}' as u8,
    ]))))));
    let g2 = ser_matcher(m2.body) + (key_response() + (ser_response(m2.response) + (key_hits() + (
    dec_of(m2.hits as nat) + (key_expected() + (dec_of(m2.expected_hits as nat) + seq![
        '}' as u8,
    ]))))));
    lemma_split_concat(key_body(), g1, key_body(), g2);
    let h1 = key_response() + (ser_response(m1.response) + (key_hits() + (dec_of(m1.hits as nat)
        + (key_expected() + (dec_of(m1.expected_hits as nat) + seq!['}' as u8])))));
    let h2 = key_response() + (ser_response(m2.response) + (key_hits() + (dec_of(m2.hits as nat)
        + (key_expected() + (dec_of(m2.expected_hits as nat) + seq!['}' as u8])))));
    lemma_ser_matcher_self_delim(m1.body, m2.body, h1, h2);
    let i1 = ser_response(m1.response) + (key_hits() + (dec_of(m1.hits as nat) + (key_expected()
        + (dec_of(m1.expected_hits as nat) + seq!['}' as u8]))));
    let i2 = ser_response(m2.response) + (key_hits() + (dec_of(m2.hits as nat) + (key_expected()
        + (dec_of(m2.expected_hits as nat) + seq!['}' as u8]))));
    lemma_split_concat(key_response(), i1, key_response(), i2);
    let k1 = key_hits() + (dec_of(m1.hits as nat) + (key_expected() + (dec_of(
        m1.expected_hits as nat,
    ) + seq!['}' as u8])));
    let k2 = key_hits() + (dec_of(m2.hits as nat) + (key_expected() + (dec_of(
        m2.expected_hits as nat,
    ) + seq!['}' as u8])));
    lemma_ser_response_self_delim(m1.response, m2.response, k1, k2);
    let l1 = dec_of(m1.hits as nat) + (key_expected() + (dec_of(m1.expected_hits as nat) + seq![
        '}' as u8,
    ]));
    let l2 = dec_of(m2.hits as nat) + (key_expected() + (dec_of(m2.expected_hits as nat) + seq![
        '}' as u8,
    ]));
    lemma_split_concat(key_hits(), l1, key_hits(), l2);
    let n1 = key_expected() + (dec_of(m1.expected_hits as nat) + seq!['}' as u8]);
    let n2 = key_expected() + (dec_of(m2.expected_hits as nat) + seq!['}' as u8]);
    assert(n1[0] == ',' as u8 && n2[0] == ',' as u8);
    lemma_dec_self_delim(m1.hits as nat, m2.hits as nat, n1, n2);
    let o1 = dec_of(m1.expected_hits as nat) + seq!['}' as u8];
    let o2 = dec_of(m2.expected_hits as nat) + seq!['}' as u8];
    lemma_split_concat(key_expected(), o1, key_expected(), o2);
    lemma_dec_self_delim(
        m1.expected_hits as nat,
        m2.expected_hits as nat,
        seq!['}' as u8],
        seq!['}' as u8],
    );
}

} // verus!
