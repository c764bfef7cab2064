//! Routing of admin socket requests: the method and target of the request
//! line, the percent-decoded query parameters, and the admin operation a
//! request asks for.

use vstd::prelude::*;
use vstd::string::StringSliceAdditionalSpecFns;
use vstd::utf8::*;
use crate::text::{
    chars_of, decimal, push_decimal, push_str_chars, string_from_chars, is_unicode_whitespace,
    is_whitespace_char,
};
use crate::admin::{
    find_header, head_end, head_end_exec, header_from, hex_upper_digit, line_at,
    parse_idempotency_key, percent_encoded, request_header_spec, unreserved,
    valid_idempotency_key,
};
use crate::text::utf8_to_string;

verus! {

/// First index at or after `i` whose character is not whitespace, or the
/// length.
pub open spec fn skip_ws(s: Seq<char>, i: int) -> int
    decreases s.len() - i,
{
    if i < 0 || i >= s.len() || !is_unicode_whitespace(s[i]) {
        i
    } else {
        skip_ws(s, i + 1)
    }
}

/// First index at or after `i` whose character is whitespace, or the
/// length.
pub open spec fn token_end(s: Seq<char>, i: int) -> int
    decreases s.len() - i,
{
    if i < 0 || i >= s.len() || is_unicode_whitespace(s[i]) {
        i
    } else {
        token_end(s, i + 1)
    }
}

/// First index at or after `i` holding `c`, or the length.
pub open spec fn find_char(s: Seq<char>, c: char, i: int) -> int
    decreases s.len() - i,
{
    if i < 0 || i >= s.len() || s[i] == c {
        i
    } else {
        find_char(s, c, i + 1)
    }
}

proof fn lemma_skip_ws(s: Seq<char>, i: int)
    requires
        0 <= i <= s.len(),
    ensures
        i <= skip_ws(s, i) <= s.len(),
    decreases s.len() - i,
{
    if i < s.len() && is_unicode_whitespace(s[i]) {
        lemma_skip_ws(s, i + 1);
    }
}

proof fn lemma_token_end(s: Seq<char>, i: int)
    requires
        0 <= i <= s.len(),
    ensures
        i <= token_end(s, i) <= s.len(),
    decreases s.len() - i,
{
    if i < s.len() && !is_unicode_whitespace(s[i]) {
        lemma_token_end(s, i + 1);
    }
}

proof fn lemma_find_char(s: Seq<char>, c: char, i: int)
    requires
        0 <= i <= s.len(),
    ensures
        i <= find_char(s, c, i) <= s.len(),
    decreases s.len() - i,
{
    if i < s.len() && s[i] != c {
        lemma_find_char(s, c, i + 1);
    }
}

/// The first whitespace-separated word of `s`, empty when there is none
/// (`split_whitespace().next()`).
pub open spec fn first_word(s: Seq<char>) -> Seq<char> {
    let a = skip_ws(s, 0);
    s.subrange(a, token_end(s, a))
}

/// The second whitespace-separated word of `s`, empty when there is none.
pub open spec fn second_word(s: Seq<char>) -> Seq<char> {
    let a = skip_ws(s, 0);
    let b = skip_ws(s, token_end(s, a));
    s.subrange(b, token_end(s, b))
}

/// The path of a request target: what precedes its first `?`.
pub open spec fn target_path(t: Seq<char>) -> Seq<char> {
    t.take(find_char(t, '?', 0))
}

/// The query of a request target: what follows its first `?`, or nothing.
pub open spec fn target_query(t: Seq<char>) -> Seq<char> {
    let q = find_char(t, '?', 0);
    if q < t.len() {
        t.skip(q + 1)
    } else {
        Seq::empty()
    }
}

/// `part` reads `key=value`: its value.
pub open spec fn strip_key(part: Seq<char>, key: Seq<char>) -> Option<Seq<char>> {
    if part.len() > key.len() && part.take(key.len() as int) == key && part[key.len() as int]
        == '=' {
        Some(part.skip(key.len() as int + 1))
    } else {
        None
    }
}

/// Scanning the `&`-separated parts of `q`: the part being read started at
/// `start` and the scan is at `i`; the value of the first part that reads
/// `key=value`.
pub open spec fn param_scan(q: Seq<char>, key: Seq<char>, start: int, i: int) -> Option<Seq<char>>
    decreases q.len() - i,
{
    if i < 0 || start < 0 || start > i {
        None
    } else if i >= q.len() || q[i] == '&' {
        match strip_key(q.subrange(start, i), key) {
            Some(v) => Some(v),
            None => if i < q.len() {
                param_scan(q, key, i + 1, i + 1)
            } else {
                None
            },
        }
    } else {
        param_scan(q, key, start, i + 1)
    }
}

/// The raw value of the first query part `key=value` of `q`.
pub open spec fn query_param(q: Seq<char>, key: Seq<char>) -> Option<Seq<char>> {
    param_scan(q, key, 0, 0)
}

/// The value of hexadecimal digit `b`.
pub open spec fn hex_digit_value(b: u8) -> Option<u8> {
    if 0x30 <= b && b <= 0x39 {
        Some((b - 0x30) as u8)
    } else if 0x61 <= b && b <= 0x66 {
        Some((b - 0x57) as u8)
    } else if 0x41 <= b && b <= 0x46 {
        Some((b - 0x37) as u8)
    } else {
        None
    }
}

/// `u8::from_str_radix(.., 16)` on the two bytes `a`, `b`: an optional `+`
/// followed by hexadecimal digits.
pub open spec fn hex_pair(a: u8, b: u8) -> Option<u8> {
    if a == 0x2b {
        hex_digit_value(b)
    } else {
        match (hex_digit_value(a), hex_digit_value(b)) {
            (Some(x), Some(y)) => Some((x * 16 + y) as u8),
            _ => None,
        }
    }
}

/// The characters a query value decodes to, given its UTF-8 bytes: `%`
/// and a hexadecimal pair becomes the byte it names, every other byte is
/// kept; each byte becomes the character with that code.
pub open spec fn percent_decoded(b: Seq<u8>) -> Seq<char>
    decreases b.len(),
{
    if b.len() == 0 {
        Seq::empty()
    } else if b[0] == 0x25 && b.len() > 2 && hex_pair(b[1], b[2]) is Some {
        seq![(hex_pair(b[1], b[2])->Some_0) as char] + percent_decoded(b.skip(3))
    } else {
        seq![b[0] as char] + percent_decoded(b.skip(1))
    }
}

/// Whether decoding reaches a `%` whose two following bytes do not end on
/// a character boundary: the pair cannot then be cut out of the value.
pub open spec fn percent_decode_panics(b: Seq<u8>) -> bool
    decreases b.len(),
{
    if b.len() == 0 {
        false
    } else if b[0] == 0x25 && b.len() > 3 && is_continuation_byte(b[3]) {
        true
    } else if b[0] == 0x25 && b.len() > 2 && hex_pair(b[1], b[2]) is Some {
        percent_decode_panics(b.skip(3))
    } else {
        percent_decode_panics(b.skip(1))
    }
}

fn hex_digit(b: u8) -> (r: Option<u8>)
    ensures
        r == hex_digit_value(b),
{
    if 0x30 <= b && b <= 0x39 {
        Some(b - 0x30)
    } else if 0x61 <= b && b <= 0x66 {
        Some(b - 0x57)
    } else if 0x41 <= b && b <= 0x46 {
        Some(b - 0x37)
    } else {
        None
    }
}

fn hex_pair_exec(a: u8, b: u8) -> (r: Option<u8>)
    ensures
        r == hex_pair(a, b),
{
    if a == 0x2b {
        hex_digit(b)
    } else {
        match (hex_digit(a), hex_digit(b)) {
            (Some(x), Some(y)) => Some(x * 16 + y),
            _ => None,
        }
    }
}

/// Decodes the bytes of a query value, and tells whether the decoding
/// would cut a character apart.
fn decode_bytes(b: &[u8]) -> (r: (Vec<char>, bool))
    ensures
        r.0@ == percent_decoded(b@),
        r.1 == percent_decode_panics(b@),
{
    let mut out: Vec<char> = Vec::new();
    let mut cut = false;
    let mut i: usize = 0;
    assert(b@.skip(0) =~= b@);
    while i < b.len()
        invariant
            i <= b@.len(),
            out@ + percent_decoded(b@.skip(i as int)) == percent_decoded(b@),
            percent_decode_panics(b@) == (cut || percent_decode_panics(b@.skip(i as int))),
        decreases b@.len() - i,
    {
        let ghost rest = b@.skip(i as int);
        let c = b[i];
        if c == 0x25 && b.len() - i > 3 && b[i + 3] >= 0x80 && b[i + 3] <= 0xbf {
            cut = true;
        }
        if c == 0x25 && b.len() - i > 2 {
            let pair = hex_pair_exec(b[i + 1], b[i + 2]);
            if let Some(v) = pair {
                assert(rest.skip(3) =~= b@.skip(i + 3));
                assert(rest[1] == b@[i + 1] && rest[2] == b@[i + 2]);
                out.push(v as char);
                assert(out@ + percent_decoded(b@.skip(i + 3)) =~= percent_decoded(b@));
                i = i + 3;
                continue;
            }
        }
        assert(rest.skip(1) =~= b@.skip(i + 1));
        out.push(c as char);
        assert(out@ + percent_decoded(b@.skip(i + 1)) =~= percent_decoded(b@));
        i = i + 1;
    }
    assert(b@.skip(i as int) =~= Seq::<u8>::empty());
    assert(out@ =~= percent_decoded(b@));
    (out, cut)
}

/// Percent-decodes a query value: `%` and a hexadecimal pair becomes the
/// byte it names, every other byte is kept, each byte taken as the
/// character with that code.
pub fn percent_decode(value: &str) -> (r: String)
    requires
        !percent_decode_panics(value.spec_bytes()),
    ensures
        r@ == percent_decoded(value.spec_bytes()),
{
    let (out, _) = decode_bytes(value.as_bytes());
    string_from_chars(out.as_slice())
}

/// Decoding of a query value given by its characters.
fn decode_chars(value: &[char]) -> (r: (Vec<char>, bool))
    ensures
        r.0@ == percent_decoded(encode_utf8(value@)),
        r.1 == percent_decode_panics(encode_utf8(value@)),
{
    let s = string_from_chars(value);
    decode_bytes(s.as_str().as_bytes())
}

fn skip_ws_exec(s: &[char], i: usize) -> (r: usize)
    requires
        i <= s@.len(),
    ensures
        r == skip_ws(s@, i as int),
        i <= r <= s@.len(),
{
    let mut j = i;
    while j < s.len() && is_whitespace_char(s[j])
        invariant
            i <= j <= s@.len(),
            skip_ws(s@, i as int) == skip_ws(s@, j as int),
        decreases s@.len() - j,
    {
        j = j + 1;
    }
    j
}

fn token_end_exec(s: &[char], i: usize) -> (r: usize)
    requires
        i <= s@.len(),
    ensures
        r == token_end(s@, i as int),
        i <= r <= s@.len(),
{
    let mut j = i;
    while j < s.len() && !is_whitespace_char(s[j])
        invariant
            i <= j <= s@.len(),
            token_end(s@, i as int) == token_end(s@, j as int),
        decreases s@.len() - j,
    {
        j = j + 1;
    }
    j
}

fn find_char_exec(s: &[char], c: char) -> (r: usize)
    ensures
        r == find_char(s@, c, 0),
        r <= s@.len(),
{
    let mut j: usize = 0;
    while j < s.len() && s[j] != c
        invariant
            j <= s@.len(),
            find_char(s@, c, 0) == find_char(s@, c, j as int),
        decreases s@.len() - j,
    {
        j = j + 1;
    }
    j
}

/// Whether `a` holds exactly the characters of `s`.
fn chars_equal(a: &[char], s: &str) -> (r: bool)
    ensures
        r == (a@ == s@),
{
    let b = chars_of(s);
    if a.len() != b.len() {
        return false;
    }
    let mut i: usize = 0;
    while i < a.len()
        invariant
            a@.len() == b@.len(),
            b@ == s@,
            i <= a@.len(),
            forall|j: int| 0 <= j < i ==> a@[j] == b@[j],
        decreases a@.len() - i,
    {
        if a[i] != b[i] {
            return false;
        }
        i = i + 1;
    }
    assert(a@ =~= b@);
    true
}

/// Whether `part` starts with `key` followed by `=`.
fn has_key(part: &[char], key: &Vec<char>) -> (r: bool)
    ensures
        r == (part@.len() > key@.len() && part@.take(key@.len() as int) == key@ && part@[key@.len()
            as int] == '='),
{
    if part.len() <= key.len() {
        return false;
    }
    let mut i: usize = 0;
    while i < key.len()
        invariant
            part@.len() > key@.len(),
            i <= key@.len(),
            forall|j: int| 0 <= j < i ==> part@[j] == key@[j],
        decreases key@.len() - i,
    {
        if part[i] != key[i] {
            assert(part@.take(key@.len() as int)[i as int] != key@[i as int]);
            return false;
        }
        i = i + 1;
    }
    assert(part@.take(key@.len() as int) =~= key@);
    part[key.len()] == '='
}

/// The bounds in `q` of the raw value of its first part `key=value`.
fn query_param_exec(q: &[char], key: &str) -> (r: Option<(usize, usize)>)
    ensures
        match r {
            Some((a, b)) => a <= b <= q@.len() && query_param(q@, key@) == Some(q@.subrange(a as int, b as int)),
            None => query_param(q@, key@) is None,
        },
{
    let k = chars_of(key);
    let mut start: usize = 0;
    let mut i: usize = 0;
    loop
        invariant
            k@ == key@,
            start <= i <= q@.len(),
            query_param(q@, key@) == param_scan(q@, key@, start as int, i as int),
        decreases q@.len() + 1 - i,
    {
        if i == q.len() || q[i] == '&' {
            let part = &q[start..i];
            assert(part@ =~= q@.subrange(start as int, i as int));
            if has_key(part, &k) {
                let a = start + k.len() + 1;
                assert(part@.skip(k@.len() as int + 1) =~= q@.subrange(a as int, i as int));
                return Some((a, i));
            }
            if i == q.len() {
                return None;
            }
            i = i + 1;
            start = i;
        } else {
            i = i + 1;
        }
    }
}

/// The body of a request: what follows its first blank line, or nothing.
pub open spec fn request_body(s: Seq<char>) -> Seq<char> {
    if head_end(s) >= 0 {
        s.skip(head_end(s) + 4)
    } else {
        Seq::empty()
    }
}

proof fn lemma_head_end_bound(s: Seq<char>)
    ensures
        head_end(s) >= 0 ==> head_end(s) + 4 <= s.len(),
        head_end(s) >= -1,
    decreases s.len(),
{
    if s.len() >= 4 && !(s[0] == '\r' && s[1] == '\n' && s[2] == '\r' && s[3] == '\n') {
        lemma_head_end_bound(s.drop_first());
    }
}

/// The percent-decoded value of the first query part `key=value` of `q`.
pub open spec fn decoded_param(q: Seq<char>, key: Seq<char>) -> Option<Seq<char>> {
    match query_param(q, key) {
        Some(v) => Some(percent_decoded(encode_utf8(v))),
        None => None,
    }
}

/// The query of the request line of `s`.
pub open spec fn request_query(s: Seq<char>) -> Seq<char> {
    target_query(second_word(s))
}

/// Whether decoding the `name` or `resource` parameter of `s` would cut a
/// character apart.
pub open spec fn admin_route_panics(s: Seq<char>) -> bool {
    let q = request_query(s);
    ||| (query_param(q, "name"@) matches Some(v) && percent_decode_panics(encode_utf8(v)))
    ||| (query_param(q, "resource"@) matches Some(v) && percent_decode_panics(encode_utf8(v)))
}

/// What an admin request asks for.
#[derive(Debug, Clone, PartialEq, Eq)]
pub enum AdminRoute {
    /// Apply the configuration operation in the body.
    ApplyConfigOverride { body: String },
    /// Clear the override of `key` in `resource`.
    ClearConfigOverride { resource: String, key: String },
    CreateClient { name: String },
    RotateToken { name: String },
    RevokeToken { name: String },
    ListTokens,
    /// Answered at once with `status` and `message`.
    Rejected { status: u16, message: String },
}

/// An admin route by its characters.
pub enum AdminRouteV {
    ApplyConfigOverride { body: Seq<char> },
    ClearConfigOverride { resource: Seq<char>, key: Seq<char> },
    CreateClient { name: Seq<char> },
    RotateToken { name: Seq<char> },
    RevokeToken { name: Seq<char> },
    ListTokens,
    Rejected { status: u16, message: Seq<char> },
}

impl View for AdminRoute {
    type V = AdminRouteV;

    open spec fn view(&self) -> AdminRouteV {
        match self {
            AdminRoute::ApplyConfigOverride { body } => AdminRouteV::ApplyConfigOverride {
                body: body@,
            },
            AdminRoute::ClearConfigOverride { resource, key } => AdminRouteV::ClearConfigOverride {
                resource: resource@,
                key: key@,
            },
            AdminRoute::CreateClient { name } => AdminRouteV::CreateClient { name: name@ },
            AdminRoute::RotateToken { name } => AdminRouteV::RotateToken { name: name@ },
            AdminRoute::RevokeToken { name } => AdminRouteV::RevokeToken { name: name@ },
            AdminRoute::ListTokens => AdminRouteV::ListTokens,
            AdminRoute::Rejected { status, message } => AdminRouteV::Rejected {
                status: *status,
                message: message@,
            },
        }
    }
}

/// The route of an admin request: by method, path and the `name` query
/// parameter; a clear needs a `resource` too; anything else is an unknown
/// endpoint.
pub open spec fn admin_route_spec(s: Seq<char>) -> AdminRouteV {
    let method = first_word(s);
    let path = target_path(second_word(s));
    let name = decoded_param(request_query(s), "name"@);
    let resource = decoded_param(request_query(s), "resource"@);
    if method == "POST"@ && path == "/v1/config/override"@ && name is None {
        AdminRouteV::ApplyConfigOverride { body: request_body(s) }
    } else if method == "POST"@ && path == "/v1/config/clear"@ && name is Some {
        match resource {
            Some(r) => AdminRouteV::ClearConfigOverride { resource: r, key: name->Some_0 },
            None => AdminRouteV::Rejected { status: 400, message: "resource is required"@ },
        }
    } else if method == "POST"@ && path == "/v1/clients/create"@ && name is Some {
        AdminRouteV::CreateClient { name: name->Some_0 }
    } else if method == "POST"@ && path == "/v1/clients/rotate"@ && name is Some {
        AdminRouteV::RotateToken { name: name->Some_0 }
    } else if method == "POST"@ && path == "/v1/clients/revoke"@ && name is Some {
        AdminRouteV::RevokeToken { name: name->Some_0 }
    } else if method == "GET"@ && path == "/v1/tokens"@ && name is None {
        AdminRouteV::ListTokens
    } else {
        AdminRouteV::Rejected { status: 404, message: "unknown admin endpoint"@ }
    }
}

/// Bounds in `s` of the method, the path and the query of its request line.
fn split_request(s: &Vec<char>) -> (r: (usize, usize, usize, usize, usize, usize))
    ensures
        r.0 <= r.1 <= s@.len(),
        r.2 <= r.3 <= s@.len(),
        r.4 <= r.5 <= s@.len(),
        s@.subrange(r.0 as int, r.1 as int) == first_word(s@),
        s@.subrange(r.2 as int, r.3 as int) == target_path(second_word(s@)),
        s@.subrange(r.4 as int, r.5 as int) == request_query(s@),
{
    proof {
        lemma_skip_ws(s@, 0);
    }
    let a0 = skip_ws_exec(s.as_slice(), 0);
    let e0 = token_end_exec(s.as_slice(), a0);
    let a1 = skip_ws_exec(s.as_slice(), e0);
    let e1 = token_end_exec(s.as_slice(), a1);
    let target = &s.as_slice()[a1..e1];
    let ghost t = target@;
    assert(t =~= second_word(s@));
    let q = find_char_exec(target, '?');
    proof {
        lemma_find_char(t, '?', 0);
    }
    assert(s@.subrange(a1 as int, (a1 + q) as int) =~= target_path(t));
    if q < target.len() {
        assert(s@.subrange((a1 + q) + 1, e1 as int) =~= target_query(t));
        (a0, e0, a1, a1 + q, a1 + q + 1, e1)
    } else {
        assert(s@.subrange(e1 as int, e1 as int) =~= target_query(t));
        (a0, e0, a1, a1 + q, e1, e1)
    }
}

/// The decoded value of the first query part `key=value`.
fn decoded_param_exec(q: &[char], key: &str) -> (r: (Option<Vec<char>>, bool))
    ensures
        match r.0 {
            Some(v) => decoded_param(q@, key@) == Some(v@),
            None => decoded_param(q@, key@) is None,
        },
        r.1 == (query_param(q@, key@) matches Some(v) && percent_decode_panics(encode_utf8(v))),
{
    match query_param_exec(q, key) {
        Some((a, b)) => {
            let v = &q[a..b];
            assert(v@ =~= q@.subrange(a as int, b as int));
            let (d, cut) = decode_chars(v);
            (Some(d), cut)
        },
        None => (None, false),
    }
}

/// The `name` and `resource` parameters of the request held in `s`, and
/// whether decoding either would cut a character apart.
fn request_params(s: &Vec<char>) -> (r: (Option<Vec<char>>, Option<Vec<char>>, bool))
    ensures
        match r.0 {
            Some(v) => decoded_param(request_query(s@), "name"@) == Some(v@),
            None => decoded_param(request_query(s@), "name"@) is None,
        },
        match r.1 {
            Some(v) => decoded_param(request_query(s@), "resource"@) == Some(v@),
            None => decoded_param(request_query(s@), "resource"@) is None,
        },
        r.2 == admin_route_panics(s@),
{
    let (_m0, _m1, _p0, _p1, q0, q1) = split_request(s);
    let query = &s.as_slice()[q0..q1];
    assert(query@ =~= request_query(s@));
    let (name, cut_name) = decoded_param_exec(query, "name");
    let (resource, cut_resource) = decoded_param_exec(query, "resource");
    (name, resource, cut_name || cut_resource)
}

/// Whether every query value of `request` that routing decodes can be cut
/// out of the request.
pub fn admin_query_decodes(request: &str) -> (r: bool)
    ensures
        r == !admin_route_panics(request@),
{
    let s = chars_of(request);
    let (_name, _resource, cut) = request_params(&s);
    !cut
}

/// Which admin operation `request` asks for.
pub fn route_admin_request(request: &str) -> (r: AdminRoute)
    requires
        !admin_route_panics(request@),
    ensures
        r@ == admin_route_spec(request@),
{
    let s = chars_of(request);
    let (m0, m1, p0, p1, _q0, _q1) = split_request(&s);
    let method = &s.as_slice()[m0..m1];
    let path = &s.as_slice()[p0..p1];
    assert(method@ =~= first_word(request@));
    assert(path@ =~= target_path(second_word(request@)));
    let (name, resource, _cut) = request_params(&s);
    let post = chars_equal(method, "POST");
    let has_name = name.is_some();
    if post && chars_equal(path, "/v1/config/override") && !has_name {
        let he = head_end_exec(&s);
        proof {
            lemma_head_end_bound(s@);
        }
        let body = if he < s.len() {
            let b = &s.as_slice()[he + 4..s.len()];
            assert(b@ =~= request_body(request@));
            string_from_chars(b)
        } else {
            assert(Seq::<char>::empty() =~= request_body(request@));
            String::new()
        };
        return AdminRoute::ApplyConfigOverride { body };
    }
    if post && chars_equal(path, "/v1/config/clear") && has_name {
        let key = name.unwrap();
        return match resource {
            Some(r) => AdminRoute::ClearConfigOverride {
                resource: string_from_chars(r.as_slice()),
                key: string_from_chars(key.as_slice()),
            },
            None => AdminRoute::Rejected {
                status: 400,
                message: "resource is required".to_owned(),
            },
        };
    }
    if post && name.is_some() {
        let n = name.unwrap();
        if chars_equal(path, "/v1/clients/create") {
            return AdminRoute::CreateClient { name: string_from_chars(n.as_slice()) };
        }
        if chars_equal(path, "/v1/clients/rotate") {
            return AdminRoute::RotateToken { name: string_from_chars(n.as_slice()) };
        }
        if chars_equal(path, "/v1/clients/revoke") {
            return AdminRoute::RevokeToken { name: string_from_chars(n.as_slice()) };
        }
    }
    if chars_equal(method, "GET") && chars_equal(path, "/v1/tokens") && !has_name {
        return AdminRoute::ListTokens;
    }
    AdminRoute::Rejected { status: 404, message: "unknown admin endpoint".to_owned() }
}

/// The request id of an admin mutation: its valid `Idempotency-Key`, or
/// the answer when the header is missing (428) or malformed (400).
pub fn mutation_request_id(request: &str) -> (r: Result<String, (u16, String)>)
    ensures
        match request_header_spec(request@, "Idempotency-Key"@) {
            None => r is Err && r->Err_0.0 == 428 && r->Err_0.1@
                == "Idempotency-Key is required for admin mutations"@,
            Some(v) => if valid_idempotency_key(v) {
                r is Ok && r->Ok_0@ == v
            } else {
                r is Err && r->Err_0.0 == 400 && r->Err_0.1@ == "invalid Idempotency-Key"@
            },
        },
{
    match parse_idempotency_key(request) {
        Ok(Some(id)) => Ok(id),
        Ok(None) => Err((428, "Idempotency-Key is required for admin mutations".to_owned())),
        Err(e) => Err((400, e.message().to_owned())),
    }
}

/// The status line reason of an admin response.
pub open spec fn reason_phrase_spec(status: u16) -> Seq<char> {
    if status == 200 {
        "OK"@
    } else if status == 400 {
        "Bad Request"@
    } else if status == 404 {
        "Not Found"@
    } else if status == 409 {
        "Conflict"@
    } else if status == 410 {
        "Gone"@
    } else if status == 428 {
        "Precondition Required"@
    } else if status == 500 {
        "Internal Server Error"@
    } else if status == 503 {
        "Service Unavailable"@
    } else {
        "Unknown Status"@
    }
}

/// The reason phrase the admin socket answers `status` with.
pub fn admin_reason_phrase(status: u16) -> (r: &'static str)
    ensures
        r@ == reason_phrase_spec(status),
{
    match status {
        200 => "OK",
        400 => "Bad Request",
        404 => "Not Found",
        409 => "Conflict",
        410 => "Gone",
        428 => "Precondition Required",
        500 => "Internal Server Error",
        503 => "Service Unavailable",
        _ => "Unknown Status",
    }
}

/// The largest admin request read, in bytes.
pub const MAX_ADMIN_REQUEST_BYTES: usize = 262144;

/// Index of the first `\r\n\r\n` in `b` at or after `i`, or the length.
pub open spec fn blank_line_from(b: Seq<u8>, i: int) -> int
    decreases b.len() - i,
{
    if i < 0 || i + 4 > b.len() {
        b.len() as int
    } else if b[i] == 0x0d && b[i + 1] == 0x0a && b[i + 2] == 0x0d && b[i + 3] == 0x0a {
        i
    } else {
        blank_line_from(b, i + 1)
    }
}

proof fn lemma_blank_line_from(b: Seq<u8>, i: int)
    requires
        0 <= i <= b.len(),
    ensures
        blank_line_from(b, i) == b.len() || (i <= blank_line_from(b, i) && blank_line_from(b, i)
            + 4 <= b.len()),
    decreases b.len() - i,
{
    if i + 4 <= b.len() && !(b[i] == 0x0d && b[i + 1] == 0x0a && b[i + 2] == 0x0d && b[i + 3]
        == 0x0a) {
        lemma_blank_line_from(b, i + 1);
    }
}

/// Decimal value of a string of ASCII digits.
pub open spec fn decimal_value(s: Seq<char>) -> nat
    decreases s.len(),
{
    if s.len() == 0 {
        0
    } else {
        decimal_value(s.drop_last()) * 10 + (s.last() as u32 - 0x30) as nat
    }
}

/// All characters of `s` are ASCII digits.
pub open spec fn all_digits(s: Seq<char>) -> bool {
    forall|i: int| 0 <= i < s.len() ==> '0' <= #[trigger] s[i] && s[i] <= '9'
}

/// `usize::from_str`: an optional `+`, then one or more decimal digits
/// whose value fits.
pub open spec fn usize_from_str(s: Seq<char>) -> Option<usize> {
    let d = if s.len() > 0 && s[0] == '+' {
        s.drop_first()
    } else {
        s
    };
    if d.len() > 0 && all_digits(d) && decimal_value(d) <= usize::MAX {
        Some(decimal_value(d) as usize)
    } else {
        None
    }
}

proof fn lemma_decimal_value_monotone(s: Seq<char>, k: int)
    requires
        0 <= k <= s.len(),
        all_digits(s),
    ensures
        decimal_value(s.take(k)) <= decimal_value(s),
    decreases s.len() - k,
{
    if k < s.len() {
        lemma_decimal_value_monotone(s, k + 1);
        assert(s.take(k + 1).drop_last() =~= s.take(k));
        assert('0' <= s[k] && s[k] <= '9');
    } else {
        assert(s.take(k) =~= s);
    }
}

/// Parses `s` as `usize::from_str` does.
fn parse_usize(s: &str) -> (r: Option<usize>)
    ensures
        r == usize_from_str(s@),
{
    let cs = chars_of(s);
    let start: usize = if cs.len() > 0 && cs[0] == '+' {
        1
    } else {
        0
    };
    let ghost d = if s@.len() > 0 && s@[0] == '+' {
        s@.drop_first()
    } else {
        s@
    };
    assert(d =~= cs@.skip(start as int));
    assert(usize_from_str(s@) == (if d.len() > 0 && all_digits(d) && decimal_value(d) <= usize::MAX {
        Some(decimal_value(d) as usize)
    } else {
        None
    }));
    if cs.len() == start {
        assert(d.len() == 0);
        return None;
    }
    let mut value: usize = 0;
    let mut i: usize = start;
    while i < cs.len()
        invariant
            start <= i <= cs@.len(),
            cs@ == s@,
            d == cs@.skip(start as int),
            d.len() > 0,
            forall|j: int| 0 <= j < i - start ==> '0' <= #[trigger] d[j] && d[j] <= '9',
            value == decimal_value(d.take(i - start)),
            usize_from_str(s@) == (if d.len() > 0 && all_digits(d) && decimal_value(d) <= usize::MAX {
                Some(decimal_value(d) as usize)
            } else {
                None
            }),
        decreases cs@.len() - i,
    {
        let c = cs[i];
        if !('0' <= c && c <= '9') {
            assert(d[i - start] == c);
            assert(!all_digits(d));
            return None;
        }
        let digit = (c as u32 - 0x30) as usize;
        proof {
            assert(d.take(i - start + 1).drop_last() =~= d.take(i - start));
            assert(d.take(i - start + 1).last() == c);
        }
        let next = match value.checked_mul(10) {
            Some(m) => m.checked_add(digit),
            None => None,
        };
        match next {
            Some(v) => {
                value = v;
            },
            None => {
                proof {
                    if all_digits(d) {
                        lemma_decimal_value_monotone(d, i - start + 1);
                    }
                }
                return None;
            },
        }
        i = i + 1;
    }
    assert(d.take(i - start) =~= d);
    Some(value)
}

/// What is known of an admin request once `buf` has arrived.
#[derive(Debug, Clone, Copy, PartialEq, Eq, Structural)]
pub enum AdminHead {
    /// More than the largest request.
    TooLarge,
    /// No blank line yet.
    Incomplete,
    /// The head is not UTF-8.
    InvalidHead,
    /// The head ends (blank line included) at `header_end`; the request
    /// declares `content_length`; `get_without_length` tells a `GET`
    /// request that declares none.
    Head { header_end: usize, content_length: Option<usize>, get_without_length: bool },
}

/// The head of an admin request read so far: the size limit first, then
/// the first blank line, then the head's `Content-Length` (the first line
/// named so decides, trimmed and parsed as `usize`) and whether it is a
/// `GET` without one.
pub open spec fn admin_head_spec(b: Seq<u8>) -> AdminHead {
    if b.len() > MAX_ADMIN_REQUEST_BYTES {
        AdminHead::TooLarge
    } else if blank_line_from(b, 0) >= b.len() {
        AdminHead::Incomplete
    } else {
        let he = blank_line_from(b, 0) + 4;
        let head = b.take(he);
        if !valid_utf8(head) {
            AdminHead::InvalidHead
        } else {
            let h = decode_utf8(head);
            let cl = match header_from(h, 0, "content-length"@, false) {
                Some(v) => usize_from_str(v),
                None => None,
            };
            let first = line_at(h, 0);
            AdminHead::Head {
                header_end: he as usize,
                content_length: cl,
                get_without_length: cl is None && first.len() >= 4 && first.take(4) == "GET "@,
            }
        }
    }
}

fn find_blank_line(buf: &[u8]) -> (r: usize)
    requires
        buf@.len() <= MAX_ADMIN_REQUEST_BYTES,
    ensures
        r == blank_line_from(buf@, 0),
{
    let mut i: usize = 0;
    while i + 4 <= buf.len() && !(buf[i] == 0x0d && buf[i + 1] == 0x0a && buf[i + 2] == 0x0d
        && buf[i + 3] == 0x0a)
        invariant
            i <= buf@.len(),
            buf@.len() <= MAX_ADMIN_REQUEST_BYTES,
            blank_line_from(buf@, 0) == blank_line_from(buf@, i as int),
        decreases buf@.len() - i,
    {
        i = i + 1;
    }
    if i + 4 > buf.len() {
        buf.len()
    } else {
        i
    }
}

/// Whether the first line of `h` starts with `GET `.
fn first_line_is_get(h: &Vec<char>) -> (r: bool)
    ensures
        r == (line_at(h@, 0).len() >= 4 && line_at(h@, 0).take(4) == "GET "@),
{
    let mut e: usize = 0;
    while e < h.len() && h[e] != '\n'
        invariant
            e <= h@.len(),
            crate::admin::line_end(h@, 0) == crate::admin::line_end(h@, e as int),
        decreases h@.len() - e,
    {
        e = e + 1;
    }
    proof {
        crate::admin::lemma_line_end(h@, 0);
    }
    let stop = if e < h.len() && e > 0 && h[e - 1] == '\r' {
        e - 1
    } else {
        e
    };
    let first = &h.as_slice()[0..stop];
    assert(first@ =~= line_at(h@, 0));
    proof {
        reveal_strlit("GET ");
    }
    if first.len() < 4 {
        return false;
    }
    let r = first[0] == 'G' && first[1] == 'E' && first[2] == 'T' && first[3] == ' ';
    proof {
        let g = "GET "@;
        let t = first@.take(4);
        assert(g.len() == 4 && g[0] == 'G' && g[1] == 'E' && g[2] == 'T' && g[3] == ' ');
        assert(t[0] == first@[0] && t[1] == first@[1] && t[2] == first@[2] && t[3] == first@[3]);
        if r {
            assert(t =~= g);
        }
    }
    r
}

/// Reads what is known of an admin request once `buf` has arrived.
pub fn admin_request_head(buf: &[u8]) -> (r: AdminHead)
    ensures
        r == admin_head_spec(buf@),
{
    if buf.len() > MAX_ADMIN_REQUEST_BYTES {
        return AdminHead::TooLarge;
    }
    let i = find_blank_line(buf);
    if i >= buf.len() {
        return AdminHead::Incomplete;
    }
    proof {
        lemma_blank_line_from(buf@, 0);
    }
    let he = i + 4;
    let head_bytes = &buf[0..he];
    assert(head_bytes@ =~= buf@.take(he as int));
    let head = match utf8_to_string(head_bytes) {
        Some(h) => h,
        None => return AdminHead::InvalidHead,
    };
    let hc = chars_of(head.as_str());
    let nm = chars_of("content-length");
    let cl = match find_header(hc.as_slice(), &nm, false) {
        Some(v) => parse_usize(v.as_str()),
        None => None,
    };
    let get = cl.is_none() && first_line_is_get(&hc);
    AdminHead::Head { header_end: he, content_length: cl, get_without_length: get }
}

/// Whether the head of the request in `b` declares a length that, added
/// to the head's size, leaves the range of `usize`.
pub open spec fn declared_length_overflows(b: Seq<u8>) -> bool {
    match admin_head_spec(b) {
        AdminHead::Head { header_end, content_length: Some(n), .. } => header_end + n
            > usize::MAX,
        _ => false,
    }
}

/// How reading an admin request goes on once `buf` has arrived.
#[derive(Debug, Clone, Copy, PartialEq, Eq, Structural)]
pub enum AdminReadStep {
    /// Read more.
    NeedMore,
    /// The request is complete.
    Complete,
    /// Refuse: the request is too large.
    TooLarge,
    /// Refuse: the head is not UTF-8.
    InvalidHead,
}

/// The step after `b` has arrived: a `GET` without a length is complete at
/// its blank line; any other request once its declared body (none when
/// absent or unreadable) has arrived.
pub open spec fn admin_read_step_spec(b: Seq<u8>) -> AdminReadStep {
    match admin_head_spec(b) {
        AdminHead::TooLarge => AdminReadStep::TooLarge,
        AdminHead::Incomplete => AdminReadStep::NeedMore,
        AdminHead::InvalidHead => AdminReadStep::InvalidHead,
        AdminHead::Head { header_end, content_length, get_without_length } => if get_without_length
            || b.len() >= header_end + match content_length {
            Some(n) => n as int,
            None => 0,
        } {
            AdminReadStep::Complete
        } else {
            AdminReadStep::NeedMore
        },
    }
}

/// Decides how reading an admin request goes on once `buf` has arrived.
pub fn admin_read_step(buf: &[u8]) -> (r: AdminReadStep)
    requires
        !declared_length_overflows(buf@),
    ensures
        r == admin_read_step_spec(buf@),
{
    match admin_request_head(buf) {
        AdminHead::TooLarge => AdminReadStep::TooLarge,
        AdminHead::Incomplete => AdminReadStep::NeedMore,
        AdminHead::InvalidHead => AdminReadStep::InvalidHead,
        AdminHead::Head { header_end, content_length, get_without_length } => {
            let need = match content_length {
                Some(n) => n,
                None => 0,
            };
            if get_without_length || buf.len() >= header_end + need {
                AdminReadStep::Complete
            } else {
                AdminReadStep::NeedMore
            }
        },
    }
}

/// The admin socket's answer: status line with its reason, a plain-text
/// body whose length counts its UTF-8 bytes, connection closed.
pub open spec fn admin_response_text(status: u16, body: Seq<char>) -> Seq<char> {
    "HTTP/1.1 "@ + decimal(status as nat) + " "@ + reason_phrase_spec(status)
        + "\r\nContent-Type: text/plain\r\nContent-Length: "@ + decimal(encode_utf8(body).len())
        + "\r\nConnection: close\r\n\r\n"@ + body
}

/// Renders the admin socket's answer.
pub fn admin_response(status: u16, body: &str) -> (r: String)
    ensures
        r@ == admin_response_text(status, body@),
{
    let mut out: Vec<char> = Vec::new();
    push_str_chars(&mut out, "HTTP/1.1 ");
    push_decimal(&mut out, status as u64);
    push_str_chars(&mut out, " ");
    push_str_chars(&mut out, admin_reason_phrase(status));
    push_str_chars(&mut out, "\r\nContent-Type: text/plain\r\nContent-Length: ");
    let n = body.as_bytes().len();
    push_decimal(&mut out, n as u64);
    push_str_chars(&mut out, "\r\nConnection: close\r\n\r\n");
    push_str_chars(&mut out, body);
    assert(out@ =~= admin_response_text(status, body@));
    string_from_chars(out.as_slice())
}

/// What one byte is written as in a query value.
pub open spec fn encoded_token(b: u8) -> Seq<char> {
    if unreserved(b) {
        seq![b as char]
    } else {
        seq!['%', hex_upper_digit(b as int / 16), hex_upper_digit(b as int % 16)]
    }
}

/// Characters below 128 as the bytes that encode them.
pub open spec fn ascii_bytes(cs: Seq<char>) -> Seq<u8> {
    Seq::new(cs.len(), |i: int| cs[i] as u8)
}

proof fn lemma_encoded_front(bytes: Seq<u8>)
    requires
        bytes.len() > 0,
    ensures
        percent_encoded(bytes) == encoded_token(bytes[0]) + percent_encoded(bytes.skip(1)),
    decreases bytes.len(),
{
    if bytes.len() == 1 {
        assert(bytes.drop_last() =~= Seq::<u8>::empty());
        assert(bytes.skip(1) =~= Seq::<u8>::empty());
        assert(percent_encoded(bytes) =~= encoded_token(bytes[0]));
    } else {
        let d = bytes.drop_last();
        lemma_encoded_front(d);
        assert(d.skip(1) =~= bytes.skip(1).drop_last());
        assert(bytes.skip(1).last() == bytes.last());
        assert(percent_encoded(bytes) =~= encoded_token(bytes[0]) + percent_encoded(bytes.skip(1)));
    }
}

proof fn lemma_encoded_ascii(bytes: Seq<u8>)
    ensures
        is_ascii_chars(percent_encoded(bytes)),
    decreases bytes.len(),
{
    if bytes.len() > 0 {
        lemma_encoded_ascii(bytes.drop_last());
        let e = percent_encoded(bytes);
        let d = percent_encoded(bytes.drop_last());
        let t = encoded_token(bytes.last());
        assert(e == d + t);
        assert forall|i| 0 <= i < e.len() implies '\0' <= #[trigger] e[i] <= '\u{7f}' by {
            if i >= d.len() {
                assert(e[i] == t[i - d.len()]);
            } else {
                assert(e[i] == d[i]);
            }
        }
    }
}

proof fn lemma_decode_token(b: u8, rest: Seq<u8>)
    ensures
        percent_decoded(ascii_bytes(encoded_token(b)) + rest) == seq![b as char] + percent_decoded(
            rest,
        ),
{
    let t = ascii_bytes(encoded_token(b));
    let x = t + rest;
    if unreserved(b) {
        assert(x[0] == b);
        assert(x.skip(1) =~= rest);
    } else {
        let hi = b / 16;
        let lo = b % 16;
        assert(b == hi * 16 + lo);
        assert(x[0] == 0x25u8);
        assert(x[1] == hex_upper_digit(hi as int) as u8);
        assert(x[2] == hex_upper_digit(lo as int) as u8);
        assert(hex_digit_value(x[1]) == Some(hi as u8));
        assert(hex_digit_value(x[2]) == Some(lo as u8));
        assert(hex_pair(x[1], x[2]) == Some(b));
        assert(x.skip(3) =~= rest);
    }
}

proof fn lemma_decode_encoded(bytes: Seq<u8>)
    ensures
        percent_decoded(ascii_bytes(percent_encoded(bytes))) == bytes.map_values(|b: u8| b as char),
        !percent_decode_panics(ascii_bytes(percent_encoded(bytes))),
    decreases bytes.len(),
{
    if bytes.len() == 0 {
        assert(ascii_bytes(percent_encoded(bytes)) =~= Seq::<u8>::empty());
        assert(bytes.map_values(|b: u8| b as char) =~= Seq::<char>::empty());
    } else {
        let r = bytes.skip(1);
        lemma_encoded_front(bytes);
        lemma_decode_encoded(r);
        let t = encoded_token(bytes[0]);
        assert(ascii_bytes(percent_encoded(bytes)) =~= ascii_bytes(t) + ascii_bytes(
            percent_encoded(r),
        ));
        lemma_decode_token(bytes[0], ascii_bytes(percent_encoded(r)));
        assert(bytes.map_values(|b: u8| b as char) =~= seq![bytes[0] as char] + r.map_values(
            |b: u8| b as char,
        ));
        lemma_encoded_ascii(r);
        let ab = ascii_bytes(percent_encoded(r));
        assert forall|i: int| 0 <= i < ab.len() implies #[trigger] ab[i] < 0x80 by {
            let c = percent_encoded(r)[i];
            assert('\0' <= c <= '\u{7f}');
            assert(ab[i] == c as u8);
        }
        lemma_no_panic_token(bytes[0], ab);
    }
}

proof fn lemma_no_panic_token(b: u8, rest: Seq<u8>)
    requires
        !percent_decode_panics(rest),
        forall|i: int| 0 <= i < rest.len() ==> #[trigger] rest[i] < 0x80,
    ensures
        !percent_decode_panics(ascii_bytes(encoded_token(b)) + rest),
{
    let t = ascii_bytes(encoded_token(b));
    let x = t + rest;
    if unreserved(b) {
        assert(x[0] == b);
        assert(x.skip(1) =~= rest);
    } else {
        let hi = b / 16;
        let lo = b % 16;
        assert(b == hi * 16 + lo);
        assert(x[1] == hex_upper_digit(hi as int) as u8);
        assert(x[2] == hex_upper_digit(lo as int) as u8);
        assert(hex_pair(x[1], x[2]) == Some(b));
        if x.len() > 3 {
            assert(x[3] == rest[0]);
        }
        assert(x.skip(3) =~= rest);
    }
}

/// A value the admin client percent-encodes reads back on the admin
/// server as the same value, when it is ASCII: the decoding neither fails
/// nor changes a character.
pub proof fn law_ascii_query_value_roundtrip(value: Seq<char>)
    requires
        is_ascii_chars(value),
    ensures
        !percent_decode_panics(encode_utf8(percent_encoded(encode_utf8(value)))),
        percent_decoded(encode_utf8(percent_encoded(encode_utf8(value)))) == value,
{
    let bytes = encode_utf8(value);
    is_ascii_chars_encode_utf8(value);
    let e = percent_encoded(bytes);
    lemma_encoded_ascii(bytes);
    is_ascii_chars_encode_utf8(e);
    assert(encode_utf8(e) =~= ascii_bytes(e));
    lemma_decode_encoded(bytes);
    assert(bytes.map_values(|b: u8| b as char) =~= value);
}

/// `s` left-aligned in a field of `width` characters, as `{:<width}`
/// writes it: padded with spaces on the right, never cut.
pub open spec fn pad_right(s: Seq<char>, width: nat) -> Seq<char> {
    if s.len() < width {
        s + Seq::new((width - s.len()) as nat, |i: int| ' ')
    } else {
        s
    }
}

/// The decimal text of a signed number.
pub open spec fn signed_decimal(n: int) -> Seq<char> {
    if n < 0 {
        "-"@ + decimal((-n) as nat)
    } else {
        decimal(n as nat)
    }
}

/// One row of the token list: client name, client status, token id, token
/// status (`-` without a token), creation time and revocation time (`-`
/// when not revoked), in columns of 20, 10, 8 and 10 characters.
pub open spec fn token_list_row_text(
    client_name: Seq<char>,
    client_status: Seq<char>,
    token_id: i64,
    token_status: Option<Seq<char>>,
    created_at: Seq<char>,
    revoked_at: Option<Seq<char>>,
) -> Seq<char> {
    pad_right(client_name, 20) + " "@ + pad_right(client_status, 10) + " "@ + pad_right(
        signed_decimal(token_id as int),
        8,
    ) + " "@ + pad_right(
        match token_status {
            Some(t) => t,
            None => "-"@,
        },
        10,
    ) + " "@ + created_at + " "@ + match revoked_at {
        Some(r) => r,
        None => "-"@,
    } + "\n"@
}

fn push_padded(out: &mut Vec<char>, s: &str, width: usize)
    ensures
        final(out)@ == old(out)@ + pad_right(s@, width as nat),
{
    let cs = chars_of(s);
    let ghost start = out@;
    push_str_chars(out, s);
    let mut n = cs.len();
    while n < width
        invariant
            cs@ == s@,
            cs@.len() <= n <= width || (n == cs@.len() && n >= width),
            out@ == start + s@ + Seq::new((n - cs@.len()) as nat, |i: int| ' '),
        decreases width - n,
    {
        out.push(' ');
        n = n + 1;
        assert(out@ =~= start + s@ + Seq::new((n - cs@.len()) as nat, |i: int| ' '));
    }
    if cs.len() >= width {
        assert(out@ =~= start + s@);
    } else {
        assert(n == width);
    }
}

fn push_signed(out: &mut Vec<char>, n: i64)
    ensures
        final(out)@ == old(out)@ + signed_decimal(n as int),
{
    if n < 0 {
        push_str_chars(out, "-");
        let m: u64 = (0i128 - (n as i128)) as u64;
        push_decimal(out, m);
        proof {
            reveal_strlit("-");
        }
        assert(final(out)@ =~= old(out)@ + signed_decimal(n as int));
    } else {
        push_decimal(out, n as u64);
    }
}

/// One row of the token list (the statuses given as the text they display
/// as), ending with a line feed.
pub fn token_list_row(
    client_name: &str,
    client_status: &str,
    token_id: i64,
    token_status: Option<&str>,
    created_at: &str,
    revoked_at: Option<&str>,
) -> (r: String)
    ensures
        r@ == token_list_row_text(
            client_name@,
            client_status@,
            token_id,
            match token_status {
                Some(t) => Some(t@),
                None => None,
            },
            created_at@,
            match revoked_at {
                Some(x) => Some(x@),
                None => None,
            },
        ),
{
    let mut out: Vec<char> = Vec::new();
    push_padded(&mut out, client_name, 20);
    push_str_chars(&mut out, " ");
    push_padded(&mut out, client_status, 10);
    push_str_chars(&mut out, " ");
    let mut id: Vec<char> = Vec::new();
    push_signed(&mut id, token_id);
    let id_text = string_from_chars(id.as_slice());
    push_padded(&mut out, id_text.as_str(), 8);
    push_str_chars(&mut out, " ");
    let ts = match token_status {
        Some(t) => t,
        None => "-",
    };
    push_padded(&mut out, ts, 10);
    push_str_chars(&mut out, " ");
    push_str_chars(&mut out, created_at);
    push_str_chars(&mut out, " ");
    let rv = match revoked_at {
        Some(x) => x,
        None => "-",
    };
    push_str_chars(&mut out, rv);
    push_str_chars(&mut out, "\n");
    proof {
        assert(id@ =~= Seq::<char>::empty() + signed_decimal(token_id as int));
    }
    assert(out@ =~= token_list_row_text(
        client_name@,
        client_status@,
        token_id,
        match token_status {
            Some(t) => Some(t@),
            None => None,
        },
        created_at@,
        match revoked_at {
            Some(x) => Some(x@),
            None => None,
        },
    ));
    string_from_chars(out.as_slice())
}

} // verus!
