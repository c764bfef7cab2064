//! The admin socket's request format: header lookup, the idempotency key of
//! a mutation, and percent-encoding of query values.

use vstd::prelude::*;
use vstd::string::StringSliceAdditionalSpecFns;
use crate::text::{chars_of, trim_uws, trim_bounds, string_from_chars};

verus! {

/// The longest idempotency key accepted.
pub const MAX_IDEMPOTENCY_KEY_LEN: usize = 128;

/// `char::to_ascii_lowercase`.
pub open spec fn ascii_lower_char(c: char) -> char {
    if 'A' <= c && c <= 'Z' {
        ((c as u32) + 32) as char
    } else {
        c
    }
}

/// `str::eq_ignore_ascii_case` over characters.
pub open spec fn eq_ignore_ascii_case_chars(a: Seq<char>, b: Seq<char>) -> bool {
    a.len() == b.len() && forall|i: int|
        0 <= i < a.len() ==> ascii_lower_char(#[trigger] a[i]) == ascii_lower_char(b[i])
}

/// Index of the first `"\r\n\r\n"` in `s`, or -1.
pub open spec fn head_end(s: Seq<char>) -> int
    decreases s.len(),
{
    if s.len() < 4 {
        -1
    } else if s[0] == '\r' && s[1] == '\n' && s[2] == '\r' && s[3] == '\n' {
        0
    } else {
        let r = head_end(s.drop_first());
        if r < 0 {
            -1
        } else {
            r + 1
        }
    }
}

/// The header part of a request: what precedes the first blank line.
pub open spec fn request_head(s: Seq<char>) -> Seq<char> {
    if head_end(s) >= 0 {
        s.take(head_end(s))
    } else {
        s
    }
}

/// The index of the first `'\n'` at or after `i`, or the length.
pub open spec fn line_end(s: Seq<char>, i: int) -> int
    decreases s.len() - i,
{
    if i < 0 || i >= s.len() || s[i] == '\n' {
        if i < 0 {
            0
        } else {
            i
        }
    } else {
        line_end(s, i + 1)
    }
}

pub proof fn lemma_line_end(s: Seq<char>, i: int)
    requires
        0 <= i <= s.len(),
    ensures
        i <= line_end(s, i) <= s.len(),
        line_end(s, i) < s.len() ==> s[line_end(s, i)] == '\n',
        forall|k: int| i <= k < line_end(s, i) ==> #[trigger] s[k] != '\n',
    decreases s.len() - i,
{
    if i < s.len() && s[i] != '\n' {
        lemma_line_end(s, i + 1);
    }
}

/// The value of a header line named `name` (ASCII case-insensitively):
/// what follows its first `:`, trimmed.
pub open spec fn header_match(line: Seq<char>, name: Seq<char>) -> Option<Seq<char>> {
    if exists|c: int| 0 <= c < line.len() && line[c] == ':' {
        let c = choose|c: int|
            0 <= c < line.len() && line[c] == ':' && forall|k: int|
                0 <= k < c ==> #[trigger] line[k] != ':';
        if eq_ignore_ascii_case_chars(line.take(c), name) {
            Some(trim_uws(line.skip(c + 1)))
        } else {
            None
        }
    } else {
        None
    }
}

/// The line of `s` that starts at `i`, as `str::lines` yields it: without
/// its `'\n'`, and without a `'\r'` just before that `'\n'`.
pub open spec fn line_at(s: Seq<char>, i: int) -> Seq<char> {
    let e = line_end(s, i);
    if e < s.len() && e > i && s[e - 1] == '\r' {
        s.subrange(i, e - 1)
    } else {
        s.subrange(i, e)
    }
}

/// The value of the first header named `name` among the lines of `s` from
/// the one at `i` on (the first of them skipped when `skip`).
pub open spec fn header_from(s: Seq<char>, i: int, name: Seq<char>, skip: bool) -> Option<Seq<char>>
    decreases s.len() - i,
{
    if i < 0 || i >= s.len() {
        None
    } else {
        let e = line_end(s, i);
        proof {
            lemma_line_end(s, i);
        }
        let next = if e < s.len() {
            e + 1
        } else {
            e
        };
        let rest = header_from(s, next, name, false);
        if skip {
            rest
        } else {
            match header_match(line_at(s, i), name) {
                Some(v) => Some(v),
                None => rest,
            }
        }
    }
}

/// The value of the first header named `name` (ASCII case-insensitively)
/// in the head of `request`, its request line excluded.
pub open spec fn request_header_spec(request: Seq<char>, name: Seq<char>) -> Option<Seq<char>> {
    header_from(request_head(request), 0, name, true)
}

pub(crate) fn head_end_exec(s: &Vec<char>) -> (r: usize)
    ensures
        r <= s@.len(),
        r == (if head_end(s@) >= 0 {
            head_end(s@)
        } else {
            s@.len() as int
        }),
{
    let mut i: usize = 0;
    assert(s@.skip(0) =~= s@);
    while i < s.len()
        invariant
            i <= s@.len(),
            head_end(s@) >= 0 ==> head_end(s@) >= i,
            head_end(s@) < 0 || head_end(s@) == i + head_end(s@.skip(i as int)),
            head_end(s@) < 0 <==> head_end(s@.skip(i as int)) < 0,
        decreases s@.len() - i,
    {
        let t = Ghost(s@.skip(i as int));
        assert(t@.drop_first() =~= s@.skip(i + 1));
        if s.len() - i >= 4 && s[i] == '\r' && s[i + 1] == '\n' && s[i + 2] == '\r' && s[i + 3]
            == '\n' {
            assert(t@[0] == '\r' && t@[1] == '\n' && t@[2] == '\r' && t@[3] == '\n');
            return i;
        }
        if s.len() - i < 4 {
            assert(head_end(t@) == -1);
        }
        i = i + 1;
    }
    assert(s@.skip(i as int).len() == 0);
    s.len()
}

fn header_name_matches(line: &[char], c: usize, name: &Vec<char>) -> (r: bool)
    requires
        c <= line@.len(),
    ensures
        r == eq_ignore_ascii_case_chars(line@.take(c as int), name@),
{
    if c != name.len() {
        return false;
    }
    let mut k: usize = 0;
    while k < c
        invariant
            c <= line@.len(),
            c == name@.len(),
            k <= c,
            forall|j: int| 0 <= j < k ==> ascii_lower_char(#[trigger] line@[j]) == ascii_lower_char(name@[j]),
        decreases c - k,
    {
        let a = line[k];
        let b = name[k];
        let la = if 'A' <= a && a <= 'Z' {
            ((a as u32) + 32) as u8 as char
        } else {
            a
        };
        let lb = if 'A' <= b && b <= 'Z' {
            ((b as u32) + 32) as u8 as char
        } else {
            b
        };
        assert(la == ascii_lower_char(a)) by {
            if 'A' <= a && a <= 'Z' {
                assert((((a as u32) + 32) as u8) as char == ((a as u32) + 32) as char);
            }
        }
        assert(lb == ascii_lower_char(b)) by {
            if 'A' <= b && b <= 'Z' {
                assert((((b as u32) + 32) as u8) as char == ((b as u32) + 32) as char);
            }
        }
        if la != lb {
            assert(ascii_lower_char(line@.take(c as int)[k as int]) != ascii_lower_char(name@[k as int]));
            return false;
        }
        k = k + 1;
    }
    assert forall|j: int| 0 <= j < line@.take(c as int).len() implies ascii_lower_char(
        #[trigger] line@.take(c as int)[j],
    ) == ascii_lower_char(name@[j]) by {
        assert(line@.take(c as int)[j] == line@[j]);
    }
    true
}

fn line_header_value(line: &[char], name: &Vec<char>) -> (r: Option<String>)
    ensures
        match r {
            Some(v) => header_match(line@, name@) == Some(v@),
            None => header_match(line@, name@) is None,
        },
{
    let mut c: usize = 0;
    while c < line.len() && line[c] != ':'
        invariant
            c <= line@.len(),
            forall|k: int| 0 <= k < c ==> #[trigger] line@[k] != ':',
        decreases line@.len() - c,
    {
        c = c + 1;
    }
    if c == line.len() {
        return None;
    }
    proof {
        let cc = choose|x: int|
            0 <= x < line@.len() && line@[x] == ':' && forall|k: int|
                0 <= k < x ==> #[trigger] line@[k] != ':';
        if cc < c {
            assert(line@[cc] != ':');
        } else if cc > c {
            assert(line@[c as int] != ':');
        }
    }
    if !header_name_matches(line, c, name) {
        return None;
    }
    let rest = &line[c + 1..line.len()];
    assert(rest@ =~= line@.skip(c + 1));
    let (a, b) = trim_bounds(rest);
    Some(string_from_chars(&rest[a..b]))
}

/// The value of the first header line named `name` in `head`, trimmed;
/// the first line is passed over when `skip_first`.
pub(crate) fn find_header(head: &[char], nm: &Vec<char>, skip_first: bool) -> (r: Option<String>)
    ensures
        match r {
            Some(v) => header_from(head@, 0, nm@, skip_first) == Some(v@),
            None => header_from(head@, 0, nm@, skip_first) is None,
        },
{
    let ghost h = head@;
    let mut i: usize = 0;
    let mut first = skip_first;
    while i < head.len()
        invariant
            h == head@,
            i <= h.len(),
            first ==> i == 0,
            header_from(h, 0, nm@, skip_first) == header_from(h, i as int, nm@, first),
        decreases h.len() - i,
    {
        let mut e: usize = i;
        while e < head.len() && head[e] != '\n'
            invariant
                h == head@,
                i <= e <= h.len(),
                line_end(h, i as int) == line_end(h, e as int),
            decreases h.len() - e,
        {
            e = e + 1;
        }
        proof {
            lemma_line_end(h, i as int);
        }
        let stop = if e < head.len() && e > i && head[e - 1] == '\r' {
            e - 1
        } else {
            e
        };
        let line = &head[i..stop];
        assert(line@ =~= line_at(h, i as int));
        if !first {
            let v = line_header_value(line, nm);
            if v.is_some() {
                return v;
            }
        }
        first = false;
        i = if e < head.len() {
            e + 1
        } else {
            e
        };
    }
    None
}

/// The value of the first header named `name` (ASCII case-insensitively)
/// in the head of `request`, trimmed; the request line is not a header.
pub fn request_header(request: &str, name: &str) -> (r: Option<String>)
    ensures
        match r {
            Some(v) => request_header_spec(request@, name@) == Some(v@),
            None => request_header_spec(request@, name@) is None,
        },
{
    let all = chars_of(request);
    let nm = chars_of(name);
    let he = head_end_exec(&all);
    let head = &all.as_slice()[0..he];
    assert(head@ =~= request_head(request@));
    find_header(head, &nm, true)
}

/// An idempotency key is 1 to 128 visible ASCII characters.
pub open spec fn valid_idempotency_key(v: Seq<char>) -> bool {
    &&& 0 < v.len() <= MAX_IDEMPOTENCY_KEY_LEN
    &&& forall|i: int| 0 <= i < v.len() ==> 0x21 <= (#[trigger] v[i]) as u32 <= 0x7e
}

/// A present but malformed `Idempotency-Key` header.
#[derive(Debug, Clone, Copy, PartialEq, Eq, Structural)]
pub struct InvalidIdempotencyKey;

impl InvalidIdempotencyKey {
    /// The message the error carries.
    pub fn message(&self) -> (r: &'static str)
        ensures
            r@ == "invalid Idempotency-Key"@,
    {
        "invalid Idempotency-Key"
    }
}

/// The `Idempotency-Key` header of an admin request: absent, valid, or
/// refused.
pub fn parse_idempotency_key(request: &str) -> (r: Result<Option<String>, InvalidIdempotencyKey>)
    ensures
        match request_header_spec(request@, "Idempotency-Key"@) {
            None => r == Ok::<Option<String>, InvalidIdempotencyKey>(None),
            Some(v) => if valid_idempotency_key(v) {
                r is Ok && r->Ok_0 is Some && r->Ok_0->Some_0@ == v
            } else {
                r == Err::<Option<String>, InvalidIdempotencyKey>(InvalidIdempotencyKey)
            },
        },
{
    let value = match request_header(request, "Idempotency-Key") {
        None => return Ok(None),
        Some(v) => v,
    };
    let cs = chars_of(value.as_str());
    assert(cs@ == value@);
    if cs.len() == 0 || cs.len() > MAX_IDEMPOTENCY_KEY_LEN {
        return Err(InvalidIdempotencyKey);
    }
    let mut i: usize = 0;
    while i < cs.len()
        invariant
            i <= cs@.len(),
            cs@ == value@,
            0 < cs@.len() <= MAX_IDEMPOTENCY_KEY_LEN,
            request_header_spec(request@, "Idempotency-Key"@) == Some(value@),
            forall|j: int| 0 <= j < i ==> 0x21 <= (#[trigger] cs@[j]) as u32 <= 0x7e,
        decreases cs@.len() - i,
    {
        let u = cs[i] as u32;
        if u < 0x21 || u > 0x7e {
            assert(!(0x21 <= (value@[i as int]) as u32 <= 0x7e));
            return Err(InvalidIdempotencyKey);
        }
        i = i + 1;
    }
    Ok(Some(value))
}

/// Bytes sent as they are in a query value.
pub open spec fn unreserved(b: u8) -> bool {
    ||| (0x41 <= b && b <= 0x5a)
    ||| (0x61 <= b && b <= 0x7a)
    ||| (0x30 <= b && b <= 0x39)
    ||| b == 0x2d
    ||| b == 0x5f
    ||| b == 0x2e
}

/// The uppercase hexadecimal digit for `n` (below sixteen).
pub open spec fn hex_upper_digit(n: int) -> char {
    if n < 10 {
        (n + 48) as char
    } else {
        (n + 55) as char
    }
}

/// `bytes` with every byte but the unreserved ones written as `%XX`.
pub open spec fn percent_encoded(bytes: Seq<u8>) -> Seq<char>
    decreases bytes.len(),
{
    if bytes.len() == 0 {
        Seq::empty()
    } else {
        let b = bytes.last();
        percent_encoded(bytes.drop_last()) + if unreserved(b) {
            seq![b as char]
        } else {
            seq!['%', hex_upper_digit(b as int / 16), hex_upper_digit(b as int % 16)]
        }
    }
}

fn hex_upper(n: u8) -> (c: char)
    requires
        n < 16,
    ensures
        c == hex_upper_digit(n as int),
{
    if n < 10 {
        (n + 48) as char
    } else {
        (n + 55) as char
    }
}

/// Percent-encodes the UTF-8 bytes of `value` for a query string.
pub fn percent_encode(value: &str) -> (r: String)
    ensures
        r@ == percent_encoded(value.spec_bytes()),
{
    let bytes = value.as_bytes();
    let mut out: Vec<char> = Vec::new();
    let mut i: usize = 0;
    while i < bytes.len()
        invariant
            i <= bytes@.len(),
            bytes@ == value.spec_bytes(),
            out@ == percent_encoded(bytes@.take(i as int)),
        decreases bytes@.len() - i,
    {
        let b = bytes[i];
        assert(bytes@.take(i + 1).drop_last() =~= bytes@.take(i as int));
        if (0x41 <= b && b <= 0x5a) || (0x61 <= b && b <= 0x7a) || (0x30 <= b && b <= 0x39) || b
            == 0x2d || b == 0x5f || b == 0x2e {
            out.push(b as char);
        } else {
            out.push('%');
            out.push(hex_upper(b / 16));
            out.push(hex_upper(b % 16));
        }
        assert(out@ =~= percent_encoded(bytes@.take(i + 1)));
        i = i + 1;
    }
    assert(bytes@.take(i as int) =~= bytes@);
    string_from_chars(out.as_slice())
}

} // verus!
