//! HTTP header fields on their way through the proxy: the hop-by-hop fields
//! dropped in both directions, the trailers that may be relayed, and the
//! effective `Content-Length` of a message.

use vstd::prelude::*;
use crate::bytes::{eq_ignore_ascii_case, trim_ws, trim_ascii_bounds, bytes_eq_ignore_ascii_case};
use crate::http_utils::{content_length_value, parse_content_length};
use crate::layer::str_is;
use crate::text::chars_of;
use crate::text::string_from_chars;

verus! {

/// Whether `b` may stand in a header name: a token character.
pub open spec fn header_name_byte_ok(b: u8) -> bool {
    b == 33 || (35 <= b <= 39) || b == 42 || b == 43 || b == 45 || b == 46 || (48 <= b <= 57) || (65
        <= b <= 90) || (94 <= b <= 122) || b == 124 || b == 126
}

/// A header-name byte in its normal form: ASCII letters lowercased.
pub open spec fn header_name_lower(b: u8) -> u8 {
    if 65 <= b <= 90 {
        (b + 32) as u8
    } else {
        b
    }
}

/// The header name that `bytes` spell: `None` unless they are 1 to 65535
/// token characters; else the bytes with ASCII letters lowercased.
pub open spec fn header_name_from_bytes(bytes: Seq<u8>) -> Option<Seq<char>> {
    if 1 <= bytes.len() <= 65535 && forall|i: int|
        0 <= i < bytes.len() ==> header_name_byte_ok(#[trigger] bytes[i]) {
        Some(Seq::new(bytes.len(), |i: int| header_name_lower(bytes[i]) as char))
    } else {
        None
    }
}

#[verifier::external_body]
fn parse_header_name(bytes: &[u8]) -> (r: Option<String>)
    ensures
        match r {
            Some(s) => header_name_from_bytes(bytes@) == Some(s@),
            None => header_name_from_bytes(bytes@) is None,
        },
{
    hyper::header::HeaderName::from_bytes(bytes).ok().map(|name| name.as_str().to_owned())
}

/// Header fields in order, each a (lowercase name, value) pair, as a
/// `HeaderMap` holds them.
pub struct HeaderList {
    pub fields: Vec<(String, Vec<u8>)>,
}

/// Header fields by their contents.
pub open spec fn fields_view(fields: Seq<(String, Vec<u8>)>) -> Seq<(Seq<char>, Seq<u8>)> {
    Seq::new(fields.len(), |i: int| (fields[i].0@, fields[i].1@))
}

impl View for HeaderList {
    type V = Seq<(Seq<char>, Seq<u8>)>;

    open spec fn view(&self) -> Seq<(Seq<char>, Seq<u8>)> {
        fields_view(self.fields@)
    }
}

/// The first value of the field `name`.
pub open spec fn first_value(h: Seq<(Seq<char>, Seq<u8>)>, name: Seq<char>) -> Option<Seq<u8>>
    decreases h.len(),
{
    if h.len() == 0 {
        None
    } else if h[0].0 == name {
        Some(h[0].1)
    } else {
        first_value(h.drop_first(), name)
    }
}

/// The values of the field `name`, in order.
pub open spec fn values_of(h: Seq<(Seq<char>, Seq<u8>)>, name: Seq<char>) -> Seq<Seq<u8>>
    decreases h.len(),
{
    if h.len() == 0 {
        Seq::empty()
    } else {
        let r = values_of(h.drop_last(), name);
        if h.last().0 == name {
            r.push(h.last().1)
        } else {
            r
        }
    }
}

/// `h` without the fields whose name is in `names`, the others kept in
/// order.
pub open spec fn without_names(h: Seq<(Seq<char>, Seq<u8>)>, names: Set<Seq<char>>) -> Seq<
    (Seq<char>, Seq<u8>),
>
    decreases h.len(),
{
    if h.len() == 0 {
        h
    } else {
        let r = without_names(h.drop_last(), names);
        if names.contains(h.last().0) {
            r
        } else {
            r.push(h.last())
        }
    }
}

/// The names held in `v`.
pub open spec fn names_of(v: Seq<String>) -> Set<Seq<char>> {
    Set::new(|n: Seq<char>| exists|i: int| 0 <= i < v.len() && v[i]@ == n)
}

/// `HeaderValue::to_str` succeeds: every byte is visible ASCII or a tab.
pub open spec fn visible_ascii(v: Seq<u8>) -> bool {
    forall|i: int| 0 <= i < v.len() ==> (32 <= #[trigger] v[i] && v[i] < 127) || v[i] == 9
}

/// Scanning the `,`-separated elements of a `Connection` value: the element
/// being read started at `start`, the scan is at `i`; the names of the
/// elements that are valid header names once trimmed. The value is visible
/// ASCII, on which `str::trim` and ASCII trimming agree.
pub open spec fn listed_names_scan(v: Seq<u8>, start: int, i: int) -> Set<Seq<char>>
    decreases v.len() - i,
{
    if i < 0 || start < 0 || start > i {
        Set::empty()
    } else if i >= v.len() || v[i] == 0x2c {
        let part = trim_ws(v.subrange(start, i));
        let here = if part.len() > 0 && header_name_from_bytes(part) is Some {
            Set::empty().insert(header_name_from_bytes(part)->Some_0)
        } else {
            Set::empty()
        };
        if i < v.len() {
            here.union(listed_names_scan(v, i + 1, i + 1))
        } else {
            here
        }
    } else {
        listed_names_scan(v, start, i + 1)
    }
}

/// The fields the first `Connection` value names as connection-specific.
pub open spec fn connection_names(h: Seq<(Seq<char>, Seq<u8>)>) -> Set<Seq<char>> {
    match first_value(h, "connection"@) {
        Some(v) => if visible_ascii(v) {
            listed_names_scan(v, 0, 0)
        } else {
            Set::empty()
        },
        None => Set::empty(),
    }
}

/// The connection-specific fields of RFC 9110 §7.6.1 that never travel on.
pub open spec fn hop_names() -> Set<Seq<char>> {
    set![
        "connection"@,
        "keep-alive"@,
        "proxy-connection"@,
        "proxy-authenticate"@,
        "proxy-authorization"@,
        "transfer-encoding"@,
        "upgrade"@,
        "trailer"@,
    ]
}

/// `h` without its hop-by-hop fields: those `Connection` names and the
/// fixed ones.
pub open spec fn without_hop_by_hop(h: Seq<(Seq<char>, Seq<u8>)>) -> Seq<(Seq<char>, Seq<u8>)> {
    without_names(h, connection_names(h).union(hop_names()))
}

/// The bytes of `trailers`.
pub open spec fn trailers_bytes() -> Seq<u8> {
    seq![0x74u8, 0x72, 0x61, 0x69, 0x6c, 0x65, 0x72, 0x73]
}

/// A request's fields as forwarded: no hop-by-hop field, no `Host`, and
/// `TE` only when its first value is `trailers`.
pub open spec fn sanitized_request(h: Seq<(Seq<char>, Seq<u8>)>) -> Seq<(Seq<char>, Seq<u8>)> {
    let h2 = without_names(without_hop_by_hop(h), set!["host"@]);
    match first_value(h2, "te"@) {
        Some(v) => if visible_ascii(v) && eq_ignore_ascii_case(v, trailers_bytes()) {
            h2
        } else {
            without_names(h2, set!["te"@])
        },
        None => h2,
    }
}

/// A response's fields as relayed: no hop-by-hop field, no `TE`, and no
/// `Content-Length` (the relay frames the body itself).
pub open spec fn sanitized_response(h: Seq<(Seq<char>, Seq<u8>)>) -> Seq<(Seq<char>, Seq<u8>)> {
    without_names(without_hop_by_hop(h), set!["te"@, "content-length"@])
}

/// Folding `Content-Length` values: `None` once one is malformed or two
/// disagree, else the common length (if any value was seen).
pub open spec fn lengths_of(vals: Seq<Seq<u8>>) -> Option<Option<u64>>
    decreases vals.len(),
{
    if vals.len() == 0 {
        Some(None)
    } else {
        match lengths_of(vals.drop_last()) {
            None => None,
            Some(acc) => match content_length_value(vals.last()) {
                None => None,
                Some(x) => match acc {
                    None => Some(Some(x)),
                    Some(y) => if y == x {
                        Some(Some(y))
                    } else {
                        None
                    },
                },
            },
        }
    }
}

/// The effective `Content-Length` of a message with fields `h`.
pub open spec fn content_length_of(h: Seq<(Seq<char>, Seq<u8>)>) -> Option<u64> {
    match lengths_of(values_of(h, "content-length"@)) {
        Some(acc) => acc,
        None => None,
    }
}

fn copy_bytes(v: &Vec<u8>) -> (r: Vec<u8>)
    ensures
        r@ == v@,
{
    let mut out: Vec<u8> = Vec::new();
    let mut i: usize = 0;
    while i < v.len()
        invariant
            i <= v@.len(),
            out@ == v@.take(i as int),
        decreases v@.len() - i,
    {
        out.push(v[i]);
        assert(out@ =~= v@.take(i + 1));
        i = i + 1;
    }
    assert(v@.take(i as int) =~= v@);
    out
}

fn name_in(names: &Vec<String>, n: &String) -> (r: bool)
    ensures
        r == names_of(names@).contains(n@),
{
    let mut i: usize = 0;
    while i < names.len()
        invariant
            i <= names@.len(),
            forall|j: int| 0 <= j < i ==> names@[j]@ != n@,
        decreases names@.len() - i,
    {
        if names[i] == *n {
            return true;
        }
        i = i + 1;
    }
    false
}

impl HeaderList {
    /// No fields.
    pub fn new() -> (r: Self)
        ensures
            r@ == Seq::<(Seq<char>, Seq<u8>)>::empty(),
    {
        let r = HeaderList { fields: Vec::new() };
        assert(r@ =~= Seq::<(Seq<char>, Seq<u8>)>::empty());
        r
    }

    /// Adds a field after the others (`HeaderMap::append`); `name` is the
    /// field's lowercase name.
    pub fn append(&mut self, name: String, value: Vec<u8>)
        ensures
            final(self)@ == old(self)@.push((name@, value@)),
    {
        self.fields.push((name, value));
        assert(self@ =~= old(self)@.push((name@, value@)));
    }

    /// The number of fields (`HeaderMap::len`).
    pub fn len(&self) -> (r: usize)
        ensures
            r == self@.len(),
    {
        self.fields.len()
    }

    /// The first value of the field `name`.
    pub fn get(&self, name: &str) -> (r: Option<Vec<u8>>)
        ensures
            match r {
                Some(v) => first_value(self@, name@) == Some(v@),
                None => first_value(self@, name@) is None,
            },
    {
        let target = name.to_owned();
        let mut i: usize = 0;
        assert(self@.skip(0) =~= self@);
        while i < self.fields.len()
            invariant
                i <= self@.len(),
                target@ == name@,
                first_value(self@, name@) == first_value(self@.skip(i as int), name@),
            decreases self@.len() - i,
        {
            let ghost rest = self@.skip(i as int);
            assert(rest.drop_first() =~= self@.skip(i + 1));
            if self.fields[i].0 == target {
                return Some(copy_bytes(&self.fields[i].1));
            }
            i = i + 1;
        }
        assert(self@.skip(i as int).len() == 0);
        None
    }

    /// Drops the fields whose name is in `names`, keeping the others in
    /// order.
    fn retain_unlisted(&mut self, names: &Vec<String>)
        ensures
            final(self)@ == without_names(old(self)@, names_of(names@)),
    {
        let ghost h = self@;
        let mut kept: Vec<(String, Vec<u8>)> = Vec::new();
        let mut i: usize = 0;
        while i < self.fields.len()
            invariant
                h == self@,
                i <= h.len(),
                fields_view(kept@) == without_names(h.take(i as int), names_of(names@)),
            decreases h.len() - i,
        {
            assert(h.take(i + 1).drop_last() =~= h.take(i as int));
            if !name_in(names, &self.fields[i].0) {
                let name = self.fields[i].0.clone();
                let value = copy_bytes(&self.fields[i].1);
                kept.push((name, value));
            }
            assert(fields_view(kept@) =~= without_names(h.take(i + 1), names_of(names@)));
            i = i + 1;
        }
        assert(h.take(i as int) =~= h);
        self.fields = kept;
    }
}

pub proof fn lemma_names_push(v: Seq<String>, s: String)
    ensures
        names_of(v.push(s)) == names_of(v).insert(s@),
{
    let w = v.push(s);
    assert forall|n: Seq<char>| names_of(w).contains(n) <==> names_of(v).insert(s@).contains(n) by {
        if names_of(w).contains(n) {
            let i = choose|i: int| 0 <= i < w.len() && w[i]@ == n;
            if i < v.len() {
                assert(v[i]@ == n);
            }
        }
        if names_of(v).contains(n) {
            let i = choose|i: int| 0 <= i < v.len() && v[i]@ == n;
            assert(w[i]@ == n);
        }
        if n == s@ {
            assert(w[v.len() as int]@ == n);
        }
    }
    assert(names_of(w) =~= names_of(v).insert(s@));
}

/// Appends `lit` to a list of names.
fn push_name(names: &mut Vec<String>, lit: &str)
    ensures
        names_of(final(names)@) == names_of(old(names)@).insert(lit@),
{
    let s = lit.to_owned();
    proof {
        lemma_names_push(names@, s);
    }
    names.push(s);
}

/// Whether every byte of `v` is visible ASCII or a tab.
fn is_visible_ascii(v: &Vec<u8>) -> (r: bool)
    ensures
        r == visible_ascii(v@),
{
    let mut i: usize = 0;
    while i < v.len()
        invariant
            i <= v@.len(),
            forall|j: int| 0 <= j < i ==> (32 <= #[trigger] v@[j] && v@[j] < 127) || v@[j] == 9,
        decreases v@.len() - i,
    {
        let b = v[i];
        if !((32 <= b && b < 127) || b == 9) {
            return false;
        }
        i = i + 1;
    }
    true
}

/// The names a `Connection` value lists, each trimmed and made a header
/// name; the elements that are no valid name are skipped.
fn listed_names(v: &Vec<u8>) -> (r: Vec<String>)
    ensures
        names_of(r@) == listed_names_scan(v@, 0, 0),
{
    let mut out: Vec<String> = Vec::new();
    let mut start: usize = 0;
    let mut i: usize = 0;
    assert(names_of(out@) =~= Set::<Seq<char>>::empty());
    loop
        invariant
            start <= i <= v@.len(),
            names_of(out@).union(listed_names_scan(v@, start as int, i as int)) == listed_names_scan(
                v@,
                0,
                0,
            ),
        decreases v@.len() + 1 - i,
    {
        if i == v.len() || v[i] == 0x2c {
            let part = &v.as_slice()[start..i];
            let ghost here_part = trim_ws(v@.subrange(start as int, i as int));
            assert(part@ =~= v@.subrange(start as int, i as int));
            let (a, b) = trim_ascii_bounds(part);
            let t = &part[a..b];
            assert(t@ =~= here_part);
            let ghost before = names_of(out@);
            if t.len() > 0 {
                match parse_header_name(t) {
                    Some(n) => {
                        proof {
                            lemma_names_push(out@, n);
                        }
                        out.push(n);
                    },
                    None => {},
                }
            }
            let ghost here = if here_part.len() > 0 && header_name_from_bytes(here_part) is Some {
                Set::empty().insert(header_name_from_bytes(here_part)->Some_0)
            } else {
                Set::<Seq<char>>::empty()
            };
            assert(names_of(out@) =~= before.union(here));
            if i == v.len() {
                assert(names_of(out@).union(Set::empty()) =~= names_of(out@));
                assert(names_of(out@) =~= listed_names_scan(v@, 0, 0));
                return out;
            }
            assert(names_of(out@).union(listed_names_scan(v@, i + 1, i + 1)) =~= before.union(
                listed_names_scan(v@, start as int, i as int),
            ));
            i = i + 1;
            start = i;
        } else {
            i = i + 1;
        }
    }
}

/// Drops the hop-by-hop fields: those the `Connection` field names, and
/// `Connection`, `Keep-Alive`, `Proxy-Connection`, `Proxy-Authenticate`,
/// `Proxy-Authorization`, `Transfer-Encoding`, `Upgrade` and `Trailer`.
pub fn remove_hop_by_hop_headers(headers: &mut HeaderList)
    ensures
        final(headers)@ == without_hop_by_hop(old(headers)@),
{
    let mut names: Vec<String> = match headers.get("connection") {
        Some(v) => if is_visible_ascii(&v) {
            listed_names(&v)
        } else {
            Vec::new()
        },
        None => Vec::new(),
    };
    let ghost listed = names_of(names@);
    assert(listed =~= connection_names(old(headers)@));
    push_name(&mut names, "connection");
    push_name(&mut names, "keep-alive");
    push_name(&mut names, "proxy-connection");
    push_name(&mut names, "proxy-authenticate");
    push_name(&mut names, "proxy-authorization");
    push_name(&mut names, "transfer-encoding");
    push_name(&mut names, "upgrade");
    push_name(&mut names, "trailer");
    assert(names_of(names@) =~= connection_names(old(headers)@).union(hop_names()));
    headers.retain_unlisted(&names);
}

/// Prepares a request's fields for the upstream: hop-by-hop fields and
/// `Host` go, and `TE` stays only when it reads `trailers`.
pub fn sanitize_request_headers(headers: &mut HeaderList)
    ensures
        final(headers)@ == sanitized_request(old(headers)@),
{
    remove_hop_by_hop_headers(headers);
    let mut host: Vec<String> = Vec::new();
    push_name(&mut host, "host");
    assert(names_of(host@) =~= set!["host"@]);
    headers.retain_unlisted(&host);
    match headers.get("te") {
        Some(v) => {
            let trailers: Vec<u8> = vec![0x74u8, 0x72, 0x61, 0x69, 0x6c, 0x65, 0x72, 0x73];
            assert(trailers@ =~= trailers_bytes());
            let keep = is_visible_ascii(&v) && bytes_eq_ignore_ascii_case(v.as_slice(), trailers.as_slice());
            if !keep {
                let mut te: Vec<String> = Vec::new();
                push_name(&mut te, "te");
                assert(names_of(te@) =~= set!["te"@]);
                headers.retain_unlisted(&te);
            }
        },
        None => {},
    }
}

/// Prepares a response's fields for the client: hop-by-hop fields, `TE`
/// and `Content-Length` go.
pub fn sanitize_response_headers(headers: &mut HeaderList)
    ensures
        final(headers)@ == sanitized_response(old(headers)@),
{
    remove_hop_by_hop_headers(headers);
    let mut names: Vec<String> = Vec::new();
    push_name(&mut names, "te");
    push_name(&mut names, "content-length");
    assert(names_of(names@) =~= set!["te"@, "content-length"@]);
    headers.retain_unlisted(&names);
}

/// The effective `Content-Length` of a message: every value must parse and
/// all must agree; `None` when there is none, one is malformed, or two
/// differ.
pub fn content_length_from_headers(headers: &HeaderList) -> (r: Option<u64>)
    ensures
        r == content_length_of(headers@),
{
    let ghost h = headers@;
    let cl = "content-length".to_owned();
    let mut result: Option<u64> = None;
    let mut i: usize = 0;
    while i < headers.fields.len()
        invariant
            h == headers@,
            cl@ == "content-length"@,
            i <= h.len(),
            lengths_of(values_of(h.take(i as int), "content-length"@)) == Some(result),
        decreases h.len() - i,
    {
        assert(h.take(i + 1).drop_last() =~= h.take(i as int));
        let ghost before = values_of(h.take(i as int), "content-length"@);
        if headers.fields[i].0 == cl {
            assert(values_of(h.take(i + 1), "content-length"@).drop_last() =~= before);
            let parsed = parse_content_length(headers.fields[i].1.as_slice());
            match parsed {
                None => {
                    assert(content_length_of(h.take(i + 1)) is None);
                    proof {
                        lemma_lengths_prefix_none(h, "content-length"@, i + 1);
                    }
                    return None;
                },
                Some(x) => match result {
                    None => {
                        result = Some(x);
                    },
                    Some(y) => {
                        if y != x {
                            proof {
                                lemma_lengths_prefix_none(h, "content-length"@, i + 1);
                            }
                            return None;
                        }
                    },
                },
            }
        }
        i = i + 1;
    }
    assert(h.take(i as int) =~= h);
    result
}

/// Once the values of `name` in a prefix of `h` disagree or one is
/// malformed, so do those of all of `h`.
proof fn lemma_lengths_prefix_none(h: Seq<(Seq<char>, Seq<u8>)>, name: Seq<char>, k: int)
    requires
        0 <= k <= h.len(),
        lengths_of(values_of(h.take(k), name)) is None,
    ensures
        lengths_of(values_of(h, name)) is None,
    decreases h.len() - k,
{
    if k < h.len() {
        let t = h.take(k + 1);
        assert(t.drop_last() =~= h.take(k));
        if t.last().0 == name {
            assert(values_of(t, name).drop_last() =~= values_of(h.take(k), name));
        }
        lemma_lengths_prefix_none(h, name, k + 1);
    } else {
        assert(h.take(k) =~= h);
    }
}

/// The trailer fields that are never relayed (RFC 9112 §7.1.2): framing,
/// routing, control and authentication fields.
pub open spec fn disallowed_trailers() -> Set<Seq<char>> {
    set![
        "authorization"@,
        "cache-control"@,
        "connection"@,
        "content-encoding"@,
        "content-length"@,
        "content-range"@,
        "content-type"@,
        "host"@,
        "max-forwards"@,
        "set-cookie"@,
        "te"@,
        "trailer"@,
        "transfer-encoding"@,
        "upgrade"@,
    ]
}

/// A trailer field may be relayed unless it is a `proxy-` field,
/// `keep-alive`, or a disallowed one.
pub open spec fn forwardable_trailer(name: Seq<char>) -> bool {
    !(name.len() >= 6 && name.take(6) == "proxy-"@) && name != "keep-alive"@
        && !disallowed_trailers().contains(name)
}

/// Whether the trailer field `name` (lowercase) may be relayed.
pub fn is_forwardable_trailer(name: &str) -> (r: bool)
    ensures
        r == forwardable_trailer(name@),
{
    let cs = chars_of(name);
    if cs.len() >= 6 {
        let prefix = string_from_chars(&cs.as_slice()[0..6]);
        assert(prefix@ =~= name@.take(6));
        if str_is(prefix.as_str(), "proxy-") {
            return false;
        }
    }
    if str_is(name, "keep-alive") {
        return false;
    }
    !(str_is(name, "authorization") || str_is(name, "cache-control") || str_is(name, "connection")
        || str_is(name, "content-encoding") || str_is(name, "content-length") || str_is(
        name,
        "content-range",
    ) || str_is(name, "content-type") || str_is(name, "host") || str_is(name, "max-forwards")
        || str_is(name, "set-cookie") || str_is(name, "te") || str_is(name, "trailer") || str_is(
        name,
        "transfer-encoding",
    ) || str_is(name, "upgrade"))
}

/// What removal by name keeps: exactly the fields of `h` whose name is not
/// in `names`.
pub proof fn lemma_without_names(h: Seq<(Seq<char>, Seq<u8>)>, names: Set<Seq<char>>)
    ensures
        forall|i: int|
            0 <= i < without_names(h, names).len() ==> !names.contains(
                (#[trigger] without_names(h, names)[i]).0,
            ) && h.contains(without_names(h, names)[i]),
        forall|j: int|
            0 <= j < h.len() && !names.contains((#[trigger] h[j]).0) ==> without_names(
                h,
                names,
            ).contains(h[j]),
    decreases h.len(),
{
    if h.len() > 0 {
        let p = h.drop_last();
        lemma_without_names(p, names);
        let r = without_names(h, names);
        let rp = without_names(p, names);
        assert forall|i: int| 0 <= i < r.len() implies !names.contains((#[trigger] r[i]).0) && h.contains(
            r[i],
        ) by {
            if i < rp.len() {
                assert(r[i] == rp[i]);
                let k = choose|k: int| 0 <= k < p.len() && p[k] == rp[i];
                assert(h[k] == p[k]);
            } else {
                assert(r[i] == h.last());
                assert(h[h.len() - 1] == h.last());
            }
        }
        assert forall|j: int| 0 <= j < h.len() && !names.contains((#[trigger] h[j]).0) implies r.contains(
            h[j],
        ) by {
            if j < h.len() - 1 {
                assert(p[j] == h[j]);
                let k = choose|k: int| 0 <= k < rp.len() && rp[k] == p[j];
                assert(r[k] == rp[k]);
            } else {
                assert(r[r.len() - 1] == h[j]);
            }
        }
    }
}

proof fn lemma_first_value_some(h: Seq<(Seq<char>, Seq<u8>)>, name: Seq<char>, i: int)
    requires
        0 <= i < h.len(),
        h[i].0 == name,
    ensures
        first_value(h, name) is Some,
    decreases i,
{
    if h[0].0 != name {
        lemma_first_value_some(h.drop_first(), name, i - 1);
    }
}

/// No hop-by-hop field and no `Host` field reaches the upstream, nothing
/// is invented, every other field but `TE` goes through, and a `TE` field
/// goes through only when it reads `trailers`.
pub proof fn law_request_drops_hop_by_hop(h: Seq<(Seq<char>, Seq<u8>)>)
    ensures
        forall|i: int|
            0 <= i < sanitized_request(h).len() ==> {
                let n = #[trigger] sanitized_request(h)[i].0;
                &&& !hop_names().contains(n)
                &&& !connection_names(h).contains(n)
                &&& n != "host"@
                &&& h.contains(sanitized_request(h)[i])
            },
        forall|j: int|
            0 <= j < h.len() && !hop_names().contains(#[trigger] h[j].0) && !connection_names(
                h,
            ).contains(h[j].0) && h[j].0 != "host"@ && h[j].0 != "te"@ ==> sanitized_request(
                h,
            ).contains(h[j]),
        (exists|i: int| 0 <= i < sanitized_request(h).len() && #[trigger] sanitized_request(h)[i].0 == "te"@)
            ==> (first_value(sanitized_request(h), "te"@) matches Some(v) && visible_ascii(v)
            && eq_ignore_ascii_case(v, trailers_bytes())),
{
    let s1 = connection_names(h).union(hop_names());
    let h1 = without_hop_by_hop(h);
    let h2 = without_names(h1, set!["host"@]);
    lemma_without_names(h, s1);
    lemma_without_names(h1, set!["host"@]);
    lemma_without_names(h2, set!["te"@]);
    let r = sanitized_request(h);
    assert forall|i: int| 0 <= i < r.len() implies {
        let n = #[trigger] r[i].0;
        &&& !hop_names().contains(n)
        &&& !connection_names(h).contains(n)
        &&& n != "host"@
        &&& h.contains(r[i])
    } by {
        let k2 = if r == h2 {
            i
        } else {
            choose|k: int| 0 <= k < h2.len() && h2[k] == r[i]
        };
        assert(h2[k2] == r[i]);
        let k1 = choose|k: int| 0 <= k < h1.len() && h1[k] == h2[k2];
        assert(h1[k1] == r[i]);
        let k0 = choose|k: int| 0 <= k < h.len() && h[k] == h1[k1];
        assert(h[k0] == r[i]);
    }
    assert forall|j: int|
        0 <= j < h.len() && !hop_names().contains(#[trigger] h[j].0) && !connection_names(
            h,
        ).contains(h[j].0) && h[j].0 != "host"@ && h[j].0 != "te"@ implies r.contains(h[j]) by {
        assert(!s1.contains(h[j].0));
        let k1 = choose|k: int| 0 <= k < h1.len() && h1[k] == h[j];
        assert(!set!["host"@].contains(h1[k1].0));
        let k2 = choose|k: int| 0 <= k < h2.len() && h2[k] == h1[k1];
        if r != h2 {
            assert(!set!["te"@].contains(h2[k2].0));
        }
    }
    if exists|i: int| 0 <= i < r.len() && #[trigger] r[i].0 == "te"@ {
        let i = choose|i: int| 0 <= i < r.len() && #[trigger] r[i].0 == "te"@;
        if r != h2 {
            assert(r[i] == without_names(h2, set!["te"@])[i]);
            assert(!set!["te"@].contains(r[i].0));
        } else {
            lemma_first_value_some(h2, "te"@, i);
        }
    }
}

/// No hop-by-hop, `TE` or `Content-Length` field reaches the client,
/// nothing is invented, and every other field goes through.
pub proof fn law_response_drops_framing(h: Seq<(Seq<char>, Seq<u8>)>)
    ensures
        forall|i: int|
            0 <= i < sanitized_response(h).len() ==> {
                let n = #[trigger] sanitized_response(h)[i].0;
                &&& !hop_names().contains(n)
                &&& !connection_names(h).contains(n)
                &&& n != "te"@
                &&& n != "content-length"@
                &&& h.contains(sanitized_response(h)[i])
            },
        forall|j: int|
            0 <= j < h.len() && !hop_names().contains(#[trigger] h[j].0) && !connection_names(
                h,
            ).contains(h[j].0) && h[j].0 != "te"@ && h[j].0 != "content-length"@
                ==> sanitized_response(h).contains(h[j]),
{
    let s1 = connection_names(h).union(hop_names());
    let s2 = set!["te"@, "content-length"@];
    let h1 = without_hop_by_hop(h);
    lemma_without_names(h, s1);
    lemma_without_names(h1, s2);
    let r = sanitized_response(h);
    assert forall|i: int| 0 <= i < r.len() implies {
        let n = #[trigger] r[i].0;
        &&& !hop_names().contains(n)
        &&& !connection_names(h).contains(n)
        &&& n != "te"@
        &&& n != "content-length"@
        &&& h.contains(r[i])
    } by {
        let k1 = choose|k: int| 0 <= k < h1.len() && h1[k] == r[i];
        let k0 = choose|k: int| 0 <= k < h.len() && h[k] == h1[k1];
        assert(h[k0] == r[i]);
    }
    assert forall|j: int|
        0 <= j < h.len() && !hop_names().contains(#[trigger] h[j].0) && !connection_names(
            h,
        ).contains(h[j].0) && h[j].0 != "te"@ && h[j].0 != "content-length"@ implies r.contains(
        h[j],
    ) by {
        assert(!s1.contains(h[j].0));
        let k1 = choose|k: int| 0 <= k < h1.len() && h1[k] == h[j];
        assert(!s2.contains(h1[k1].0));
    }
}

} // verus!
