//! Sniffing of raw HTTP/1.x request heads: the `Host` header, the method
//! and path of the request line, and `Content-Length` field values.

use vstd::prelude::*;
use vstd::utf8::*;
use crate::bytes::{
    first_index_of, last_index_of, leading_ws, leading_non_ws, trim_ws, is_ascii_ws,
    eq_ignore_ascii_case, ascii_lower, lemma_first_index_of, lemma_leading_ws_at,
    lemma_leading_non_ws_at, find_byte, trim_ascii_bounds, is_ascii_whitespace_byte,
    to_ascii_lower,
};
use crate::text::{utf8_to_string, opt_string_view, decode_opt};

verus! {

/// A line without its trailing carriage return, if it has one.
pub open spec fn strip_cr(line: Seq<u8>) -> Seq<u8> {
    if line.len() > 0 && line.last() == 0x0d {
        line.drop_last()
    } else {
        line
    }
}

/// Whether a header name is `host`, ignoring ASCII case.
pub open spec fn is_host_name(name: Seq<u8>) -> bool {
    eq_ignore_ascii_case(name, seq![0x68u8, 0x6fu8, 0x73u8, 0x74u8])
}

/// The trimmed value of a `Host: value` line, if `line` is one.
pub open spec fn host_of_line(line: Seq<u8>) -> Option<Seq<u8>> {
    let c = first_index_of(line, 0x3a);
    if c >= 0 && is_host_name(line.take(c)) {
        Some(trim_ws(line.skip(c + 1)))
    } else {
        None
    }
}

/// Scans header lines in `rest`. `Some(r)` when the scan stops with answer
/// `r` (at the `Host` line, at the blank line that ends the head, or at a
/// line that is neither a header nor a continuation); `None` when the
/// lines run out first.
pub open spec fn scan_header_lines(rest: Seq<u8>) -> Option<Option<Seq<u8>>>
    decreases rest.len(),
{
    let nl = first_index_of(rest, 0x0a);
    let line = strip_cr(
        if nl >= 0 {
            rest.take(nl)
        } else {
            rest
        },
    );
    let c = first_index_of(line, 0x3a);
    if line.len() == 0 {
        Some(None)
    } else if c >= 0 && is_host_name(line.take(c)) {
        Some(Some(trim_ws(line.skip(c + 1))))
    } else if c < 0 && !is_ascii_ws(line[0]) {
        Some(None)
    } else if 0 <= nl < rest.len() {
        scan_header_lines(rest.skip(nl + 1))
    } else {
        None
    }
}

/// The bytes of the `Host` header value that `extract_host_from_http`
/// reports: the request line is skipped and the header lines after it are
/// scanned up to the end of the head; without a request line, or when the
/// lines run out before a `Host` field, there is none.
pub open spec fn host_header_value(data: Seq<u8>) -> Option<Seq<u8>> {
    let nl = first_index_of(data, 0x0a);
    let scanned = if 0 <= nl < data.len() {
        scan_header_lines(data.skip(nl + 1))
    } else {
        None
    };
    match scanned {
        Some(r) => r,
        None => None,
    }
}

/// The request line: the bytes before the first line feed, without `\r`.
pub open spec fn request_line(data: Seq<u8>) -> Seq<u8> {
    let nl = first_index_of(data, 0x0a);
    strip_cr(
        if nl >= 0 {
            data.take(nl)
        } else {
            data
        },
    )
}

/// The first whitespace-separated token of `s` and what follows it.
pub open spec fn next_token(s: Seq<u8>) -> Option<(Seq<u8>, Seq<u8>)> {
    let t = s.skip(leading_ws(s) as int);
    if t.len() == 0 {
        None
    } else {
        Some((t.take(leading_non_ws(t) as int), t.skip(leading_non_ws(t) as int)))
    }
}

/// The first two tokens of the request line: method and path.
pub open spec fn method_path_bytes(data: Seq<u8>) -> Option<(Seq<u8>, Seq<u8>)> {
    match next_token(request_line(data)) {
        Some((m, rest)) => match next_token(rest) {
            Some((p, _)) => Some((m, p)),
            None => None,
        },
        None => None,
    }
}

/// What `extract_method_path_from_http` returns, by characters.
pub open spec fn method_path_chars(data: Seq<u8>) -> Option<(Seq<char>, Seq<char>)> {
    match method_path_bytes(data) {
        Some((m, p)) => if valid_utf8(m) && valid_utf8(p) {
            Some((decode_utf8(m), decode_utf8(p)))
        } else {
            None
        },
        None => None,
    }
}

pub open spec fn is_digit(b: u8) -> bool {
    0x30 <= b <= 0x39
}

/// Decimal value of a string of ASCII digits.
pub open spec fn digits_value(s: Seq<u8>) -> nat
    decreases s.len(),
{
    if s.len() == 0 {
        0
    } else {
        digits_value(s.drop_last()) * 10 + (s.last() - 0x30) as nat
    }
}

/// `1*DIGIT` whose value fits in a `u64`.
pub open spec fn parse_digits(s: Seq<u8>) -> Option<u64> {
    if s.len() > 0 && (forall|i: int| 0 <= i < s.len() ==> is_digit(#[trigger] s[i]))
        && digits_value(s) <= u64::MAX {
        Some(digits_value(s) as u64)
    } else {
        None
    }
}

/// Comma-separated `Content-Length` elements from `rest` on, each trimmed
/// and parsed; `prev` is the value of the elements before.
pub open spec fn content_length_from(rest: Seq<u8>, prev: Option<u64>) -> Option<u64>
    decreases rest.len(),
{
    let c = first_index_of(rest, 0x2c);
    let elem = if c >= 0 {
        rest.take(c)
    } else {
        rest
    };
    match parse_digits(trim_ws(elem)) {
        None => None,
        Some(v) => if prev is Some && prev->0 != v {
            None
        } else if 0 <= c < rest.len() {
            content_length_from(rest.skip(c + 1), Some(v))
        } else {
            Some(v)
        },
    }
}

/// A `Content-Length` field value: every comma-separated element is
/// `1*DIGIT` (surrounding whitespace allowed) and all carry one value.
pub open spec fn content_length_value(value: Seq<u8>) -> Option<u64> {
    content_length_from(value, None)
}

proof fn lemma_digits_value_monotone(s: Seq<u8>, j: int, k: int)
    requires
        0 <= j <= k <= s.len(),
        forall|i: int| 0 <= i < s.len() ==> is_digit(#[trigger] s[i]),
    ensures
        digits_value(s.take(j)) <= digits_value(s.take(k)),
    decreases k - j,
{
    if j < k {
        lemma_digits_value_monotone(s, j, k - 1);
        assert(s.take(k).drop_last() =~= s.take(k - 1));
        assert(s.take(k).last() == s[k - 1]);
        assert(is_digit(s[k - 1]));
    }
}

/// Whether a header name is `host` (ASCII case-insensitive).
fn is_host_header_name(data: &[u8], from: usize, to: usize) -> (r: bool)
    requires
        from <= to <= data@.len(),
    ensures
        r == is_host_name(data@.subrange(from as int, to as int)),
{
    let ghost name = data@.subrange(from as int, to as int);
    let ghost lit = seq![0x68u8, 0x6fu8, 0x73u8, 0x74u8];
    if to - from != 4 {
        return false;
    }
    let r = to_ascii_lower(data[from]) == 0x68 && to_ascii_lower(data[from + 1]) == 0x6f
        && to_ascii_lower(data[from + 2]) == 0x73 && to_ascii_lower(data[from + 3]) == 0x74;
    proof {
        assert(name[0] == data@[from as int]);
        assert(name[1] == data@[from + 1]);
        assert(name[2] == data@[from + 2]);
        assert(name[3] == data@[from + 3]);
        if r {
            assert forall|i: int| 0 <= i < name.len() implies ascii_lower(#[trigger] name[i])
                == ascii_lower(lit[i]) by {
                assert(0 <= i < 4);
            }
        }
        if is_host_name(name) {
            assert(ascii_lower(name[0]) == ascii_lower(lit[0]));
            assert(ascii_lower(name[1]) == ascii_lower(lit[1]));
            assert(ascii_lower(name[2]) == ascii_lower(lit[2]));
            assert(ascii_lower(name[3]) == ascii_lower(lit[3]));
        }
    }
    r
}

/// End of the line `data[start..end]` once a trailing `\r` is dropped.
fn strip_cr_end(data: &[u8], start: usize, end: usize) -> (r: usize)
    requires
        start <= end <= data@.len(),
    ensures
        start <= r <= end,
        data@.subrange(start as int, r as int) == strip_cr(
            data@.subrange(start as int, end as int),
        ),
{
    if end > start && data[end - 1] == 0x0d {
        assert(data@.subrange(start as int, end - 1) =~= data@.subrange(
            start as int,
            end as int,
        ).drop_last());
        end - 1
    } else {
        end
    }
}

/// The value bounds of a `Host` line `data[start..end]`.
fn host_value_in_line(data: &[u8], start: usize, end: usize) -> (r: Option<(usize, usize)>)
    requires
        start <= end <= data@.len(),
    ensures
        match r {
            Some((a, b)) => start <= a <= b <= end && host_of_line(
                data@.subrange(start as int, end as int),
            ) == Some(data@.subrange(a as int, b as int)),
            None => host_of_line(data@.subrange(start as int, end as int)) is None,
        },
{
    let line = Ghost(data@.subrange(start as int, end as int));
    match find_byte(data, start, end, 0x3a) {
        Some(c) => {
            if is_host_header_name(data, start, c) {
                let value = &data[c + 1..end];
                let (a, b) = trim_ascii_bounds(value);
                proof {
                    assert(line@.take(c - start) =~= data@.subrange(start as int, c as int));
                    assert(line@.skip(c - start + 1) =~= value@);
                    assert(value@.subrange(a as int, b as int) =~= data@.subrange(
                        c + 1 + a,
                        c + 1 + b,
                    ));
                }
                Some((c + 1 + a, c + 1 + b))
            } else {
                proof {
                    assert(line@.take(c - start) =~= data@.subrange(start as int, c as int));
                }
                None
            }
        },
        None => None,
    }
}

/// Bounds in `data` of the `Host` header value, per `host_header_value`.
fn host_header_bounds(data: &[u8]) -> (r: Option<(usize, usize)>)
    ensures
        match r {
            Some((a, b)) => a <= b <= data@.len() && host_header_value(data@) == Some(
                data@.subrange(a as int, b as int),
            ),
            None => host_header_value(data@) is None,
        },
{
    let len = data.len();
    assert(data@.subrange(0, len as int) =~= data@);
    let first = find_byte(data, 0, len, 0x0a);
    if let Some(nl) = first {
        let mut pos = nl + 1;
        assert(data@.skip(pos as int) =~= data@.skip(nl + 1));
        loop
            invariant
                nl < pos <= len,
                len == data@.len(),
                first_index_of(data@, 0x0a) == nl,
                scan_header_lines(data@.skip(nl + 1)) == scan_header_lines(data@.skip(pos as int)),
            ensures
                scan_header_lines(data@.skip(nl + 1)) is None,
            decreases len - pos,
        {
            let rest = Ghost(data@.skip(pos as int));
            assert(data@.subrange(pos as int, len as int) =~= rest@);
            let next = find_byte(data, pos, len, 0x0a);
            let end = match next {
                Some(i) => i,
                None => len,
            };
            proof {
                if next is Some {
                    assert(rest@.take(end - pos) =~= data@.subrange(pos as int, end as int));
                } else {
                    assert(rest@ =~= data@.subrange(pos as int, end as int));
                }
            }
            let end2 = strip_cr_end(data, pos, end);
            let line = Ghost(data@.subrange(pos as int, end2 as int));
            if end2 == pos {
                assert(line@.len() == 0);
                return None;
            }
            let colon = find_byte(data, pos, end2, 0x3a);
            match colon {
                Some(c) => {
                    let hv = host_value_in_line(data, pos, end2);
                    if hv.is_some() {
                        return hv;
                    }
                },
                None => {
                    if !is_ascii_whitespace_byte(data[pos]) {
                        assert(line@[0] == data@[pos as int]);
                        return None;
                    }
                    assert(line@[0] == data@[pos as int]);
                },
            }
            match next {
                Some(i) => {
                    proof {
                        lemma_first_index_of(rest@, 0x0a);
                        assert(rest@.skip(i - pos + 1) =~= data@.skip(i + 1));
                    }
                    pos = i + 1;
                },
                None => {
                    assert(scan_header_lines(rest@) is None);
                    break ;
                },
            }
        }
    }
    proof {
        lemma_first_index_of(data@, 0x0a);
    }
    None
}

/// The value of the `Host` header of a raw HTTP/1.x request head, trimmed of
/// ASCII whitespace; `None` when the head has no such header before its end
/// or the value is not UTF-8.
pub fn extract_host_from_http(data: &[u8]) -> (r: Option<String>)
    ensures
        opt_string_view(r) == decode_opt(host_header_value(data@)),
{
    match host_header_bounds(data) {
        Some((a, b)) => utf8_to_string(&data[a..b]),
        None => None,
    }
}

/// Bounds of the first token of `data[from..to]`.
fn token_bounds(data: &[u8], from: usize, to: usize) -> (r: Option<(usize, usize)>)
    requires
        from <= to <= data@.len(),
    ensures
        match r {
            Some((a, b)) => from <= a < b <= to && next_token(
                data@.subrange(from as int, to as int),
            ) == Some((data@.subrange(a as int, b as int), data@.subrange(b as int, to as int))),
            None => next_token(data@.subrange(from as int, to as int)) is None,
        },
{
    let s = Ghost(data@.subrange(from as int, to as int));
    let mut a = from;
    while a < to && is_ascii_whitespace_byte(data[a])
        invariant
            from <= a <= to <= data@.len(),
            forall|j: int| from <= j < a ==> is_ascii_ws(data@[j]),
        decreases to - a,
    {
        a = a + 1;
    }
    proof {
        assert forall|j: int| 0 <= j < a - from implies is_ascii_ws(s@[j]) by {
            assert(s@[j] == data@[from + j]);
        }
        if a < to {
            assert(s@[a - from] == data@[a as int]);
        }
        lemma_leading_ws_at(s@, a - from);
    }
    let t = Ghost(s@.skip(a - from));
    assert(t@ =~= data@.subrange(a as int, to as int));
    if a == to {
        return None;
    }
    let mut b = a;
    while b < to && !is_ascii_whitespace_byte(data[b])
        invariant
            a <= b <= to <= data@.len(),
            forall|j: int| a <= j < b ==> !is_ascii_ws(data@[j]),
        decreases to - b,
    {
        b = b + 1;
    }
    proof {
        assert forall|j: int| 0 <= j < b - a implies !is_ascii_ws(t@[j]) by {
            assert(t@[j] == data@[a + j]);
        }
        if b < to {
            assert(t@[b - a] == data@[b as int]);
        }
        lemma_leading_non_ws_at(t@, b - a);
        assert(t@.take(b - a) =~= data@.subrange(a as int, b as int));
        assert(t@.skip(b - a) =~= data@.subrange(b as int, to as int));
    }
    Some((a, b))
}

/// Method and path of the request line of a raw HTTP/1.x request: its
/// first two whitespace-separated tokens, when both exist and are UTF-8.
pub fn extract_method_path_from_http(data: &[u8]) -> (r: Option<(String, String)>)
    ensures
        match r {
            Some((m, p)) => method_path_chars(data@) == Some((m@, p@)),
            None => method_path_chars(data@) is None,
        },
{
    let len = data.len();
    assert(data@.subrange(0, len as int) =~= data@);
    let end = match find_byte(data, 0, len, 0x0a) {
        Some(i) => i,
        None => len,
    };
    assert(data@.take(end as int) =~= data@.subrange(0, end as int));
    let end2 = strip_cr_end(data, 0, end);
    let (ma, mb) = match token_bounds(data, 0, end2) {
        Some(t) => t,
        None => return None,
    };
    let (pa, pb) = match token_bounds(data, mb, end2) {
        Some(t) => t,
        None => return None,
    };
    let method = match utf8_to_string(&data[ma..mb]) {
        Some(m) => m,
        None => return None,
    };
    let path = match utf8_to_string(&data[pa..pb]) {
        Some(p) => p,
        None => return None,
    };
    Some((method, path))
}

/// `1*DIGIT` as a `u64`; `None` on an empty input, a non-digit, or overflow.
pub fn from_digits(digits: &[u8]) -> (r: Option<u64>)
    ensures
        r == parse_digits(digits@),
{
    let s = Ghost(digits@);
    if digits.len() == 0 {
        return None;
    }
    let mut result: u64 = 0;
    let mut i: usize = 0;
    while i < digits.len()
        invariant
            i <= digits@.len(),
            s@ == digits@,
            result == digits_value(digits@.take(i as int)),
            forall|j: int| 0 <= j < i ==> is_digit(#[trigger] digits@[j]),
        decreases digits@.len() - i,
    {
        let byte = digits[i];
        if !(0x30 <= byte && byte <= 0x39) {
            assert(!is_digit(digits@[i as int]));
            return None;
        }
        let digit = (byte - 0x30) as u64;
        proof {
            assert(digits@.take(i + 1).drop_last() =~= digits@.take(i as int));
            assert(digits@.take(i + 1).last() == byte);
        }
        if result > u64::MAX / 10 || result * 10 > u64::MAX - digit {
            proof {
                if forall|j: int| 0 <= j < digits@.len() ==> is_digit(#[trigger] digits@[j]) {
                    lemma_digits_value_monotone(digits@, i + 1, digits@.len() as int);
                    assert(digits@.take(digits@.len() as int) =~= digits@);
                }
            }
            return None;
        }
        result = result * 10 + digit;
        i = i + 1;
    }
    assert(digits@.take(i as int) =~= digits@);
    Some(result)
}

/// Parse one `Content-Length` field value. Each comma-separated element must
/// be `1*DIGIT` (ASCII whitespace around it allowed), and all elements must
/// carry the same value.
pub fn parse_content_length(value: &[u8]) -> (r: Option<u64>)
    ensures
        r == content_length_value(value@),
{
    let len = value.len();
    let mut pos: usize = 0;
    let mut prev: Option<u64> = None;
    assert(value@.skip(0) =~= value@);
    loop
        invariant
            pos <= len,
            len == value@.len(),
            content_length_value(value@) == content_length_from(value@.skip(pos as int), prev),
        decreases len - pos,
    {
        let rest = Ghost(value@.skip(pos as int));
        assert(value@.subrange(pos as int, len as int) =~= rest@);
        let comma = find_byte(value, pos, len, 0x2c);
        let end = match comma {
            Some(i) => i,
            None => len,
        };
        let elem = &value[pos..end];
        proof {
            if comma is Some {
                assert(rest@.take(end - pos) =~= elem@);
            } else {
                assert(rest@ =~= elem@);
            }
        }
        let (a, b) = trim_ascii_bounds(elem);
        let parsed = from_digits(&elem[a..b]);
        let v = match parsed {
            Some(v) => v,
            None => return None,
        };
        match prev {
            Some(p) => {
                if p != v {
                    return None;
                }
            },
            None => {},
        }
        match comma {
            Some(i) => {
                proof {
                    lemma_first_index_of(rest@, 0x2c);
                    assert(rest@.skip(i - pos + 1) =~= value@.skip(i + 1));
                }
                prev = Some(v);
                pos = i + 1;
            },
            None => {
                return Some(v);
            },
        }
    }
}

} // verus!
