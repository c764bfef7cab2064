//! Host canonicalisation and the routers that dispatch on it: a virtual-host
//! router with exact and `*.suffix` wildcard entries, and a port router.

use vstd::prelude::*;
use crate::text::{
    chars_of, decimal, digit_char, is_unicode_whitespace, lemma_leading_uws_at,
    lemma_trailing_uws_at, string_from_chars, trim_bounds, trim_uws,
};

verus! {

broadcast use vstd::std_specs::hash::group_hash_axioms;

/// What `str::to_lowercase` returns for the characters `s` (full Unicode
/// case mapping, context-sensitive for final sigma).
pub uninterp spec fn unicode_lowercase(s: Seq<char>) -> Seq<char>;

/// `str::to_lowercase` applied to the string made of `cs`.
#[verifier::external_body]
pub fn lowercase(cs: &[char]) -> (r: String)
    ensures
        r@ == unicode_lowercase(cs@),
{
    cs.iter().collect::<String>().to_lowercase()
}

/// Why a host is refused by `canonicalize_egress_host`.
#[derive(Debug, Clone, Copy, PartialEq, Eq)]
pub enum HostError {
    Empty,
    NotBareHost,
    EmptyWildcardSuffix,
    MissingClosingBracket,
    UnexpectedAfterBracket,
    InvalidPort,
}

/// The message each refusal carries.
pub open spec fn host_error_text(e: HostError) -> Seq<char> {
    match e {
        HostError::Empty => "host must not be empty"@,
        HostError::NotBareHost => "host must be a bare host or authority, not a URL"@,
        HostError::EmptyWildcardSuffix => "wildcard host must include a suffix"@,
        HostError::MissingClosingBracket => "bracketed IPv6 host is missing closing bracket"@,
        HostError::UnexpectedAfterBracket => "unexpected characters after bracketed host"@,
        HostError::InvalidPort => "port must be a valid u16"@,
    }
}

impl HostError {
    /// The message the error carries.
    pub fn message(&self) -> (r: &'static str)
        ensures
            r@ == host_error_text(*self),
    {
        match self {
            HostError::Empty => "host must not be empty",
            HostError::NotBareHost => "host must be a bare host or authority, not a URL",
            HostError::EmptyWildcardSuffix => "wildcard host must include a suffix",
            HostError::MissingClosingBracket => "bracketed IPv6 host is missing closing bracket",
            HostError::UnexpectedAfterBracket => "unexpected characters after bracketed host",
            HostError::InvalidPort => "port must be a valid u16",
        }
    }
}

pub open spec fn is_ascii_digit_char(c: char) -> bool {
    '0' <= c <= '9'
}

/// Decimal value of a string of ASCII digits.
pub open spec fn char_digits_value(s: Seq<char>) -> nat
    decreases s.len(),
{
    if s.len() == 0 {
        0
    } else {
        char_digits_value(s.drop_last()) * 10 + ((s.last() as u32) - 0x30) as nat
    }
}

/// `str::parse::<u16>` succeeds: an optional `+`, then one or more ASCII
/// digits whose value is at most 65535.
pub open spec fn port_ok(p: Seq<char>) -> bool {
    let d = port_digits(p);
    &&& d.len() > 0
    &&& forall|i: int| 0 <= i < d.len() ==> is_ascii_digit_char(#[trigger] d[i])
    &&& char_digits_value(d) <= 65535
}

/// The digits of a port string: without a leading `+`.
pub open spec fn port_digits(p: Seq<char>) -> Seq<char> {
    if p.len() > 0 && p[0] == '+' {
        p.drop_first()
    } else {
        p
    }
}

/// Index of the first `c` in `s`, or -1.
pub open spec fn first_char_index(s: Seq<char>, c: char) -> int
    decreases s.len(),
{
    if s.len() == 0 {
        -1
    } else if s[0] == c {
        0
    } else {
        let r = first_char_index(s.drop_first(), c);
        if r < 0 {
            -1
        } else {
            r + 1
        }
    }
}

/// Index of the last `c` in `s`, or -1.
pub open spec fn last_char_index(s: Seq<char>, c: char) -> int
    decreases s.len(),
{
    if s.len() == 0 {
        -1
    } else if s.last() == c {
        s.len() - 1
    } else {
        last_char_index(s.drop_last(), c)
    }
}

/// Number of occurrences of `c` in `s`.
pub open spec fn count_char(s: Seq<char>, c: char) -> nat
    decreases s.len(),
{
    if s.len() == 0 {
        0
    } else {
        count_char(s.drop_last(), c) + if s.last() == c {
            1nat
        } else {
            0nat
        }
    }
}

pub open spec fn has_char(s: Seq<char>, c: char) -> bool {
    exists|i: int| 0 <= i < s.len() && s[i] == c
}

/// Whether `s` contains `://`.
pub open spec fn has_scheme_separator(s: Seq<char>) -> bool {
    exists|i: int| 0 <= i && i + 3 <= s.len() && #[trigger] s[i] == ':' && s[i + 1] == '/' && s[i + 2] == '/'
}

/// The host part of an authority (before case folding), or why it is refused.
pub open spec fn authority_host(a: Seq<char>) -> Result<Seq<char>, HostError> {
    if a.len() > 0 && a[0] == '[' {
        let rest = a.drop_first();
        let e = first_char_index(rest, ']');
        if e < 0 {
            Err(HostError::MissingClosingBracket)
        } else {
            let host = rest.take(e);
            let suffix = rest.skip(e + 1);
            if suffix.len() > 0 && suffix[0] != ':' {
                Err(HostError::UnexpectedAfterBracket)
            } else if suffix.len() > 0 && !port_ok(suffix.drop_first()) {
                Err(HostError::InvalidPort)
            } else if host.len() == 0 {
                Err(HostError::Empty)
            } else {
                Ok(host)
            }
        }
    } else if count_char(a, ':') == 1 {
        let c = last_char_index(a, ':');
        if !port_ok(a.skip(c + 1)) {
            Err(HostError::InvalidPort)
        } else if c == 0 {
            Err(HostError::Empty)
        } else {
            Ok(a.take(c))
        }
    } else if a.len() == 0 {
        Err(HostError::Empty)
    } else {
        Ok(a)
    }
}

/// Whether the (trimmed) host starts with the wildcard marker `*.`.
pub open spec fn is_wildcard(t: Seq<char>) -> bool {
    t.len() >= 2 && t[0] == '*' && t[1] == '.'
}

/// The canonical form of an egress host: trimmed, the port dropped, the
/// brackets of an IPv6 literal dropped, lowercased, a `*.` wildcard marker
/// kept; or the reason the host is refused.
pub open spec fn canonical_host(h: Seq<char>) -> Result<Seq<char>, HostError> {
    let t = trim_uws(h);
    if t.len() == 0 {
        Err(HostError::Empty)
    } else if has_scheme_separator(t) || has_char(t, '/') || has_char(t, '?') || has_char(t, '#') {
        Err(HostError::NotBareHost)
    } else if is_wildcard(t) && t.len() == 2 {
        Err(HostError::EmptyWildcardSuffix)
    } else {
        let auth = if is_wildcard(t) {
            t.skip(2)
        } else {
            t
        };
        match authority_host(auth) {
            Err(e) => Err(e),
            Ok(host) => Ok(
                if is_wildcard(t) {
                    seq!['*', '.'] + unicode_lowercase(host)
                } else {
                    unicode_lowercase(host)
                },
            ),
        }
    }
}

proof fn lemma_first_char_index(s: Seq<char>, c: char, i: int)
    requires
        0 <= i <= s.len(),
        forall|j: int| 0 <= j < i ==> s[j] != c,
        i < s.len() ==> s[i] == c,
    ensures
        first_char_index(s, c) == (if i < s.len() {
            i
        } else {
            -1
        }),
    decreases i,
{
    if i > 0 {
        lemma_first_char_index(s.drop_first(), c, i - 1);
    }
}

proof fn lemma_last_char_index(s: Seq<char>, c: char, i: int)
    requires
        -1 <= i < s.len(),
        forall|j: int| i < j < s.len() ==> s[j] != c,
        i >= 0 ==> s[i] == c,
    ensures
        last_char_index(s, c) == i,
    decreases s.len(),
{
    if s.len() > 0 && s.last() != c {
        lemma_last_char_index(s.drop_last(), c, i);
    }
}

/// Position of the first `c` in `s[from..to]`, as an index into `s`.
fn find_char(s: &[char], from: usize, to: usize, c: char) -> (r: Option<usize>)
    requires
        from <= to <= s@.len(),
    ensures
        match r {
            Some(i) => from <= i < to && first_char_index(s@.subrange(from as int, to as int), c)
                == i - from,
            None => first_char_index(s@.subrange(from as int, to as int), c) == -1,
        },
{
    let mut i = from;
    while i < to
        invariant
            from <= i <= to <= s@.len(),
            forall|j: int| from <= j < i ==> s@[j] != c,
        decreases to - i,
    {
        if s[i] == c {
            proof {
                lemma_first_char_index(s@.subrange(from as int, to as int), c, i - from);
            }
            return Some(i);
        }
        i = i + 1;
    }
    proof {
        lemma_first_char_index(s@.subrange(from as int, to as int), c, to - from);
    }
    None
}

/// Whether `s[from..to]` holds `c`.
fn contains_char(s: &[char], from: usize, to: usize, c: char) -> (r: bool)
    requires
        from <= to <= s@.len(),
    ensures
        r == has_char(s@.subrange(from as int, to as int), c),
{
    let ghost t = s@.subrange(from as int, to as int);
    let mut i = from;
    while i < to
        invariant
            from <= i <= to <= s@.len(),
            t == s@.subrange(from as int, to as int),
            forall|j: int| from <= j < i ==> s@[j] != c,
        decreases to - i,
    {
        if s[i] == c {
            assert(t[i - from] == c);
            return true;
        }
        i = i + 1;
    }
    assert forall|j: int| 0 <= j < t.len() implies t[j] != c by {
        assert(t[j] == s@[from + j]);
    }
    false
}

/// Whether `s[from..to]` holds `://`.
fn contains_scheme_separator(s: &[char], from: usize, to: usize) -> (r: bool)
    requires
        from <= to <= s@.len(),
    ensures
        r == has_scheme_separator(s@.subrange(from as int, to as int)),
{
    let ghost t = s@.subrange(from as int, to as int);
    let mut i = from;
    while to - i >= 3
        invariant
            from <= i <= to <= s@.len(),
            t == s@.subrange(from as int, to as int),
            forall|j: int|
                from <= j < i && j + 3 <= to ==> !(#[trigger] s@[j] == ':' && s@[j + 1] == '/' && s@[j + 2]
                    == '/'),
        decreases to - i,
    {
        if s[i] == ':' && s[i + 1] == '/' && s[i + 2] == '/' {
            assert(t[i - from] == ':' && t[i - from + 1] == '/' && t[i - from + 2] == '/');
            return true;
        }
        i = i + 1;
    }
    assert forall|j: int|
        0 <= j && j + 3 <= t.len() implies !(#[trigger] t[j] == ':' && t[j + 1] == '/' && t[j + 2]
        == '/') by {
        assert(t[j] == s@[from + j]);
        assert(t[j + 1] == s@[from + j + 1]);
        assert(t[j + 2] == s@[from + j + 2]);
    }
    false
}

/// Occurrences of `c` in `s[from..to]`.
fn count_chars(s: &[char], from: usize, to: usize, c: char) -> (r: usize)
    requires
        from <= to <= s@.len(),
    ensures
        r == count_char(s@.subrange(from as int, to as int), c),
{
    let mut n: usize = 0;
    let mut i = from;
    assert(s@.subrange(from as int, from as int) =~= Seq::<char>::empty());
    while i < to
        invariant
            from <= i <= to <= s@.len(),
            n == count_char(s@.subrange(from as int, i as int), c),
            n <= i - from,
        decreases to - i,
    {
        assert(s@.subrange(from as int, i + 1).drop_last() =~= s@.subrange(from as int, i as int));
        if s[i] == c {
            n = n + 1;
        }
        i = i + 1;
    }
    n
}

/// Last position of `c` in `s[from..to]`, as an index into `s`.
fn rfind_char(s: &[char], from: usize, to: usize, c: char) -> (r: Option<usize>)
    requires
        from <= to <= s@.len(),
    ensures
        match r {
            Some(i) => from <= i < to && last_char_index(s@.subrange(from as int, to as int), c)
                == i - from,
            None => last_char_index(s@.subrange(from as int, to as int), c) == -1,
        },
{
    let mut i = to;
    while i > from
        invariant
            from <= i <= to <= s@.len(),
            forall|j: int| i <= j < to ==> s@[j] != c,
        decreases i,
    {
        if s[i - 1] == c {
            proof {
                lemma_last_char_index(s@.subrange(from as int, to as int), c, i - 1 - from);
            }
            return Some(i - 1);
        }
        i = i - 1;
    }
    proof {
        lemma_last_char_index(s@.subrange(from as int, to as int), c, -1);
    }
    None
}

/// `str::parse::<u16>` succeeds on `s[from..to]`.
fn port_is_valid(s: &[char], from: usize, to: usize) -> (r: bool)
    requires
        from <= to <= s@.len(),
    ensures
        r == port_ok(s@.subrange(from as int, to as int)),
{
    let ghost p = s@.subrange(from as int, to as int);
    let start = if from < to && s[from] == '+' {
        from + 1
    } else {
        from
    };
    let ghost d = s@.subrange(start as int, to as int);
    proof {
        if from < to {
            assert(p[0] == s@[from as int]);
        }
        if from < to && s@[from as int] == '+' {
            assert(p.drop_first() =~= d);
        } else {
            assert(p =~= d);
        }
        assert(port_digits(p) == d);
    }
    if start == to {
        assert(d.len() == 0);
        return false;
    }
    let mut value: u32 = 0;
    let mut i = start;
    assert(s@.subrange(start as int, start as int) =~= Seq::<char>::empty());
    while i < to
        invariant
            start <= i <= to <= s@.len(),
            d == s@.subrange(start as int, to as int),
            port_digits(s@.subrange(from as int, to as int)) == d,
            value == char_digits_value(s@.subrange(start as int, i as int)),
            value <= 65535,
            forall|j: int| start <= j < i ==> is_ascii_digit_char(#[trigger] s@[j]),
        decreases to - i,
    {
        let c = s[i];
        if !('0' <= c && c <= '9') {
            assert(!is_ascii_digit_char(d[i - start]));
            return false;
        }
        assert(s@.subrange(start as int, i + 1).drop_last() =~= s@.subrange(start as int, i as int));
        let next = value * 10 + ((c as u32) - 0x30);
        if next > 65535 {
            proof {
                if forall|j: int| 0 <= j < d.len() ==> is_ascii_digit_char(#[trigger] d[j]) {
                    lemma_char_digits_monotone(d, i + 1 - start, d.len() as int);
                    assert(d.take(i + 1 - start) =~= s@.subrange(start as int, i + 1));
                    assert(d.take(d.len() as int) =~= d);
                }
            }
            return false;
        }
        value = next;
        i = i + 1;
    }
    assert forall|j: int| 0 <= j < d.len() implies is_ascii_digit_char(#[trigger] d[j]) by {
        assert(d[j] == s@[start + j]);
    }
    true
}

pub proof fn lemma_char_digits_monotone(s: Seq<char>, j: int, k: int)
    requires
        0 <= j <= k <= s.len(),
        forall|i: int| 0 <= i < s.len() ==> is_ascii_digit_char(#[trigger] s[i]),
    ensures
        char_digits_value(s.take(j)) <= char_digits_value(s.take(k)),
    decreases k - j,
{
    if j < k {
        lemma_char_digits_monotone(s, j, k - 1);
        assert(s.take(k).drop_last() =~= s.take(k - 1));
        assert(is_ascii_digit_char(s[k - 1]));
    }
}

/// Validates a port string as `str::parse::<u16>` would.
pub fn validate_port(port: &str) -> (r: Result<(), HostError>)
    ensures
        r is Ok <==> port_ok(port@),
        r matches Err(e) ==> e == HostError::InvalidPort,
{
    let cs = chars_of(port);
    assert(cs@.subrange(0, cs@.len() as int) =~= cs@);
    if port_is_valid(cs.as_slice(), 0, cs.len()) {
        Ok(())
    } else {
        Err(HostError::InvalidPort)
    }
}

/// `str::parse::<u16>`: the value of an optional `+` followed by decimal
/// digits, when it is at most 65535.
pub fn parse_port(port: &str) -> (r: Option<u16>)
    ensures
        r is Some <==> port_ok(port@),
        r matches Some(v) ==> v == char_digits_value(port_digits(port@)),
{
    if validate_port(port).is_err() {
        return None;
    }
    let cs = chars_of(port);
    let start: usize = if cs.len() > 0 && cs[0] == '+' {
        1
    } else {
        0
    };
    let ghost d = port_digits(cs@);
    assert(d =~= cs@.skip(start as int));
    assert(d.take(0) =~= Seq::<char>::empty());
    let mut v: u32 = 0;
    let mut i: usize = start;
    while i < cs.len()
        invariant
            start <= i <= cs@.len(),
            cs@ == port@,
            d == cs@.skip(start as int),
            d == port_digits(port@),
            port_ok(port@),
            v == char_digits_value(d.take(i - start)),
            v <= 65535,
        decreases cs@.len() - i,
    {
        proof {
            lemma_char_digits_monotone(d, i - start + 1, d.len() as int);
            assert(d.take(d.len() as int) =~= d);
            assert(d.take(i - start + 1).drop_last() =~= d.take(i - start));
            assert(d.take(i - start + 1).last() == cs@[i as int]);
            assert(is_ascii_digit_char(d[i - start]));
        }
        v = v * 10 + ((cs[i] as u32) - 0x30);
        i = i + 1;
    }
    assert(d.take(i - start) =~= d);
    Some(v as u16)
}

/// Host part of the authority `s[from..to]`, as bounds into `s`.
fn authority_host_bounds(s: &[char], from: usize, to: usize) -> (r: Result<
    (usize, usize),
    HostError,
>)
    requires
        from <= to <= s@.len(),
    ensures
        match r {
            Ok((a, b)) => from <= a <= b <= to && authority_host(
                s@.subrange(from as int, to as int),
            ) == Ok::<Seq<char>, HostError>(s@.subrange(a as int, b as int)),
            Err(e) => authority_host(s@.subrange(from as int, to as int)) == Err::<
                Seq<char>,
                HostError,
            >(e),
        },
{
    let ghost a = s@.subrange(from as int, to as int);
    if from < to && s[from] == '[' {
        let ghost rest = a.drop_first();
        assert(rest =~= s@.subrange(from + 1, to as int));
        let e = match find_char(s, from + 1, to, ']') {
            Some(e) => e,
            None => return Err(HostError::MissingClosingBracket),
        };
        let ghost off = e - (from + 1);
        assert(rest.take(off) =~= s@.subrange(from + 1, e as int));
        assert(rest.skip(off + 1) =~= s@.subrange(e + 1, to as int));
        if e + 1 < to {
            if s[e + 1] != ':' {
                return Err(HostError::UnexpectedAfterBracket);
            }
            assert(rest.skip(off + 1).drop_first() =~= s@.subrange(e + 2, to as int));
            if !port_is_valid(s, e + 2, to) {
                return Err(HostError::InvalidPort);
            }
        }
        if e == from + 1 {
            return Err(HostError::Empty);
        }
        return Ok((from + 1, e));
    }
    if count_chars(s, from, to, ':') == 1 {
        let c = match rfind_char(s, from, to, ':') {
            Some(c) => c,
            None => {
                proof {
                    lemma_count_zero(a, ':');
                }
                return Err(HostError::InvalidPort);
            },
        };
        assert(a.skip(c - from + 1) =~= s@.subrange(c + 1, to as int));
        assert(a.take(c - from) =~= s@.subrange(from as int, c as int));
        if !port_is_valid(s, c + 1, to) {
            return Err(HostError::InvalidPort);
        }
        if c == from {
            return Err(HostError::Empty);
        }
        return Ok((from, c));
    }
    if from == to {
        return Err(HostError::Empty);
    }
    Ok((from, to))
}

proof fn lemma_count_zero(s: Seq<char>, c: char)
    requires
        last_char_index(s, c) == -1,
    ensures
        count_char(s, c) == 0,
    decreases s.len(),
{
    if s.len() > 0 {
        lemma_count_zero(s.drop_last(), c);
    }
}

/// Canonicalises an egress host or authority: surrounding whitespace is
/// trimmed, URLs are refused, a port (validated as a `u16`) and IPv6
/// brackets are dropped, the host is lowercased, and a leading `*.` wildcard
/// marker is kept.
pub fn canonicalize_egress_host(host: &str) -> (r: Result<String, HostError>)
    ensures
        match r {
            Ok(s) => canonical_host(host@) == Ok::<Seq<char>, HostError>(s@),
            Err(e) => canonical_host(host@) == Err::<Seq<char>, HostError>(e),
        },
{
    let cs = chars_of(host);
    let (ts, te) = trim_bounds(cs.as_slice());
    let s = cs.as_slice();
    let ghost t = s@.subrange(ts as int, te as int);
    if ts == te {
        return Err(HostError::Empty);
    }
    if contains_scheme_separator(s, ts, te) || contains_char(s, ts, te, '/') || contains_char(
        s,
        ts,
        te,
        '?',
    ) || contains_char(s, ts, te, '#') {
        return Err(HostError::NotBareHost);
    }
    let wildcard = te - ts >= 2 && s[ts] == '*' && s[ts + 1] == '.';
    assert(wildcard == is_wildcard(t));
    if wildcard && te - ts == 2 {
        return Err(HostError::EmptyWildcardSuffix);
    }
    let from = if wildcard {
        ts + 2
    } else {
        ts
    };
    assert(s@.subrange(from as int, te as int) =~= (if is_wildcard(t) {
        t.skip(2)
    } else {
        t
    }));
    let (a, b) = authority_host_bounds(s, from, te)?;
    let lower = lowercase(&s[a..b]);
    if wildcard {
        let lc = chars_of(lower.as_str());
        let mut out: Vec<char> = Vec::new();
        out.push('*');
        out.push('.');
        let mut i: usize = 0;
        while i < lc.len()
            invariant
                i <= lc@.len(),
                out@ == seq!['*', '.'] + lc@.take(i as int),
            decreases lc@.len() - i,
        {
            out.push(lc[i]);
            i = i + 1;
            assert(out@ =~= seq!['*', '.'] + lc@.take(i as int));
        }
        assert(lc@.take(i as int) =~= lc@);
        Ok(string_from_chars(out.as_slice()))
    } else {
        Ok(lower)
    }
}

/// The key `add_route` and `remove` store a host under: its canonical form,
/// or, for a host that cannot be canonicalised, its lowercase.
pub open spec fn route_key(host: Seq<char>) -> Seq<char> {
    match canonical_host(host) {
        Ok(k) => k,
        Err(_) => unicode_lowercase(host),
    }
}

/// Whether a key is a wildcard pattern.
pub open spec fn starts_with_wildcard(k: Seq<char>) -> bool {
    k.len() >= 2 && k[0] == '*' && k[1] == '.'
}

/// Whether the wildcard `pattern` (`*.suffix`) matches `host`: the host ends
/// with `.suffix`.
pub open spec fn wildcard_matches(pattern: Seq<char>, host: Seq<char>) -> bool {
    let suffix = pattern.skip(1);
    starts_with_wildcard(pattern) && suffix.len() <= host.len() && host.skip(
        host.len() - suffix.len(),
    ) == suffix
}

/// Index of the first exact entry whose key is `k`, or -1.
pub open spec fn exact_index<T>(entries: Seq<(String, T)>, k: Seq<char>) -> int
    decreases entries.len(),
{
    if entries.len() == 0 {
        -1
    } else if entries[0].0@ == k {
        0
    } else {
        let r = exact_index(entries.drop_first(), k);
        if r < 0 {
            -1
        } else {
            r + 1
        }
    }
}

/// Index of the first wildcard entry matching `host`, or -1.
pub open spec fn wildcard_index<T>(entries: Seq<(String, T)>, host: Seq<char>) -> int
    decreases entries.len(),
{
    if entries.len() == 0 {
        -1
    } else if wildcard_matches(entries[0].0@, host) {
        0
    } else {
        let r = wildcard_index(entries.drop_first(), host);
        if r < 0 {
            -1
        } else {
            r + 1
        }
    }
}

proof fn lemma_exact_index<T>(entries: Seq<(String, T)>, k: Seq<char>, i: int)
    requires
        0 <= i <= entries.len(),
        forall|j: int| 0 <= j < i ==> entries[j].0@ != k,
        i < entries.len() ==> entries[i].0@ == k,
    ensures
        exact_index(entries, k) == (if i < entries.len() {
            i
        } else {
            -1
        }),
    decreases i,
{
    if i > 0 {
        lemma_exact_index(entries.drop_first(), k, i - 1);
    }
}

proof fn lemma_exact_index_found<T>(entries: Seq<(String, T)>, k: Seq<char>)
    requires
        exact_index(entries, k) >= 0,
    ensures
        exact_index(entries, k) < entries.len(),
        entries[exact_index(entries, k)].0@ == k,
        forall|j: int| 0 <= j < exact_index(entries, k) ==> entries[j].0@ != k,
    decreases entries.len(),
{
    if entries[0].0@ != k {
        lemma_exact_index_found(entries.drop_first(), k);
        assert forall|j: int| 0 <= j < exact_index(entries, k) implies entries[j].0@ != k by {
            if j > 0 {
                assert(entries[j] == entries.drop_first()[j - 1]);
            }
        }
    }
}

proof fn lemma_wildcard_index<T>(entries: Seq<(String, T)>, host: Seq<char>, i: int)
    requires
        0 <= i <= entries.len(),
        forall|j: int| 0 <= j < i ==> !wildcard_matches(entries[j].0@, host),
        i < entries.len() ==> wildcard_matches(entries[i].0@, host),
    ensures
        wildcard_index(entries, host) == (if i < entries.len() {
            i
        } else {
            -1
        }),
    decreases i,
{
    if i > 0 {
        lemma_wildcard_index(entries.drop_first(), host, i - 1);
    }
}

/// Routes requests by host: exact hosts first, then the `*.suffix`
/// wildcards in the order they were added.
pub struct VhostRouter<T> {
    exact: Vec<(String, T)>,
    wildcards: Vec<(String, T)>,
}

impl<T: Clone> VhostRouter<T> {
    /// Exact entries: distinct keys, none a wildcard pattern.
    pub closed spec fn wf(&self) -> bool {
        &&& forall|i: int, j: int|
            0 <= i < j < self.exact@.len() ==> self.exact@[i].0@ != self.exact@[j].0@
        &&& forall|i: int|
            0 <= i < self.exact@.len() ==> !starts_with_wildcard(#[trigger] self.exact@[i].0@)
        &&& forall|i: int|
            0 <= i < self.wildcards@.len() ==> starts_with_wildcard(
                #[trigger] self.wildcards@[i].0@,
            )
    }

    /// The exact entries, as (key, value) pairs.
    pub closed spec fn exact_entries(&self) -> Seq<(String, T)> {
        self.exact@
    }

    /// The wildcard entries, as (pattern, value) pairs, in insertion order.
    pub closed spec fn wildcard_entries(&self) -> Seq<(String, T)> {
        self.wildcards@
    }

    /// The stored value `get(host)` clones, if any: the exact entry for the
    /// canonical host, else the first wildcard entry matching it.
    pub open spec fn lookup(&self, host: Seq<char>) -> Option<T> {
        match canonical_host(host) {
            Err(_) => None,
            Ok(k) => {
                let e = exact_index(self.exact_entries(), k);
                if e >= 0 {
                    Some(self.exact_entries()[e].1)
                } else {
                    let w = wildcard_index(self.wildcard_entries(), k);
                    if w >= 0 {
                        Some(self.wildcard_entries()[w].1)
                    } else {
                        None
                    }
                }
            },
        }
    }

    /// An empty router.
    pub fn new() -> (r: Self)
        ensures
            r.wf(),
            r.exact_entries().len() == 0,
            r.wildcard_entries().len() == 0,
    {
        VhostRouter { exact: Vec::new(), wildcards: Vec::new() }
    }

    fn exact_position(&self, key: &Vec<char>) -> (r: Option<usize>)
        ensures
            match r {
                Some(i) => i < self.exact@.len() && exact_index(self.exact@, key@) == i,
                None => exact_index(self.exact@, key@) == -1,
            },
    {
        let mut i: usize = 0;
        while i < self.exact.len()
            invariant
                i <= self.exact@.len(),
                forall|j: int| 0 <= j < i ==> self.exact@[j].0@ != key@,
            decreases self.exact@.len() - i,
        {
            let k = chars_of(self.exact[i].0.as_str());
            if chars_eq(&k, key) {
                proof {
                    lemma_exact_index(self.exact@, key@, i as int);
                }
                return Some(i);
            }
            i = i + 1;
        }
        proof {
            lemma_exact_index(self.exact@, key@, i as int);
        }
        None
    }

    /// Adds a route; a wildcard key is appended to the wildcard list, an exact
    /// key replaces any entry with the same key.
    pub fn add_route(&mut self, host: &str, value: T)
        requires
            old(self).wf(),
        ensures
            final(self).wf(),
            starts_with_wildcard(route_key(host@)) ==> {
                &&& final(self).exact_entries() == old(self).exact_entries()
                &&& final(self).wildcard_entries().len() == old(self).wildcard_entries().len() + 1
                &&& final(self).wildcard_entries().take(old(self).wildcard_entries().len() as int)
                    == old(self).wildcard_entries()
                &&& final(self).wildcard_entries().last().0@ == route_key(host@)
                &&& final(self).wildcard_entries().last().1 == value
            },
            !starts_with_wildcard(route_key(host@)) ==> {
                &&& final(self).wildcard_entries() == old(self).wildcard_entries()
                &&& exact_index(old(self).exact_entries(), route_key(host@)) >= 0 ==> {
                    let i = exact_index(old(self).exact_entries(), route_key(host@));
                    final(self).exact_entries() == old(self).exact_entries().update(
                        i,
                        (old(self).exact_entries()[i].0, value),
                    )
                }
                &&& exact_index(old(self).exact_entries(), route_key(host@)) < 0 ==> {
                    &&& final(self).exact_entries().len() == old(self).exact_entries().len() + 1
                    &&& final(self).exact_entries().take(old(self).exact_entries().len() as int)
                        == old(self).exact_entries()
                    &&& final(self).exact_entries().last().0@ == route_key(host@)
                    &&& final(self).exact_entries().last().1 == value
                }
            },
            canonical_host(host@) is Ok && !starts_with_wildcard(route_key(host@))
                ==> final(self).lookup(host@) == Some(value),
    {
        let key = route_key_of(host);
        let kc = chars_of(key.as_str());
        let wild = kc.len() >= 2 && kc[0] == '*' && kc[1] == '.';
        if wild {
            self.wildcards.push((key, value));
        } else {
            match self.exact_position(&kc) {
                Some(i) => {
                    let k = self.exact[i].0.clone();
                    proof {
                        lemma_exact_index_found(old(self).exact@, kc@);
                    }
                    self.exact.set(i, (k, value));
                    proof {
                        lemma_exact_index(self.exact@, kc@, i as int);
                    }
                },
                None => {
                    self.exact.push((key, value));
                    proof {
                        lemma_exact_index_absent(old(self).exact@, kc@);
                        lemma_exact_index(self.exact@, kc@, old(self).exact@.len() as int);
                    }
                },
            }
        }
    }

    /// The value routed to `host`, if any.
    pub fn get(&self, host: &str) -> (r: Option<T>)
        requires
            self.wf(),
        ensures
            r is Some <==> self.lookup(host@) is Some,
            r matches Some(v) ==> cloned::<T>(self.lookup(host@)->0, v),
    {
        let lower = match canonicalize_egress_host(host) {
            Ok(l) => l,
            Err(_) => return None,
        };
        let kc = chars_of(lower.as_str());
        match self.exact_position(&kc) {
            Some(i) => {
                return Some(self.exact[i].1.clone());
            },
            None => {},
        }
        let mut i: usize = 0;
        while i < self.wildcards.len()
            invariant
                i <= self.wildcards@.len(),
                canonical_host(host@) == Ok::<Seq<char>, HostError>(kc@),
                exact_index(self.exact@, kc@) == -1,
                forall|j: int| 0 <= j < i ==> !wildcard_matches(self.wildcards@[j].0@, kc@),
            decreases self.wildcards@.len() - i,
        {
            let p = chars_of(self.wildcards[i].0.as_str());
            if pattern_matches(&p, &kc) {
                proof {
                    lemma_wildcard_index(self.wildcards@, kc@, i as int);
                }
                return Some(self.wildcards[i].1.clone());
            }
            i = i + 1;
        }
        proof {
            lemma_wildcard_index(self.wildcards@, kc@, i as int);
        }
        None
    }

    /// Removes the routes stored under `host`'s key: every wildcard entry with
    /// that pattern, or the exact entry with that key.
    pub fn remove(&mut self, host: &str)
        requires
            old(self).wf(),
        ensures
            final(self).wf(),
            starts_with_wildcard(route_key(host@)) ==> {
                &&& final(self).exact_entries() == old(self).exact_entries()
                &&& final(self).wildcard_entries() == old(self).wildcard_entries().filter(
                    |e: (String, T)| e.0@ != route_key(host@),
                )
            },
            !starts_with_wildcard(route_key(host@)) ==> {
                &&& final(self).wildcard_entries() == old(self).wildcard_entries()
                &&& exact_index(old(self).exact_entries(), route_key(host@)) >= 0 ==>
                    final(self).exact_entries() == old(self).exact_entries().remove(
                    exact_index(old(self).exact_entries(), route_key(host@)),
                )
                &&& exact_index(old(self).exact_entries(), route_key(host@)) < 0
                    ==> final(self).exact_entries() == old(self).exact_entries()
            },
            !starts_with_wildcard(route_key(host@)) ==> exact_index(
                final(self).exact_entries(),
                route_key(host@),
            ) < 0,
    {
        let key = route_key_of(host);
        let kc = chars_of(key.as_str());
        let wild = kc.len() >= 2 && kc[0] == '*' && kc[1] == '.';
        if wild {
            let ghost pred = |e: (String, T)| e.0@ != kc@;
            let mut kept: Vec<(String, T)> = Vec::new();
            let mut rest: Vec<(String, T)> = Vec::new();
            std::mem::swap(&mut rest, &mut self.wildcards);
            let ghost orig = rest@;
            let ghost mut i: int = 0;
            while rest.len() > 0
                invariant
                    0 <= i <= orig.len(),
                    rest@ == orig.skip(i as int),
                    rest@.len() + i == orig.len(),
                    kept@ == orig.take(i as int).filter(pred),
                    forall|j: int|
                        0 <= j < kept@.len() ==> starts_with_wildcard(#[trigger] kept@[j].0@),
                    forall|j: int|
                        0 <= j < orig.len() ==> starts_with_wildcard(#[trigger] orig[j].0@),
                    pred == (|e: (String, T)| e.0@ != kc@),
                decreases rest@.len(),
            {
                let e = rest.remove(0);
                assert(e == orig[i as int]);
                assert(orig.take(i + 1).drop_last() =~= orig.take(i as int));
                proof {
                    reveal(Seq::filter);
                    assert(orig.take(i + 1).last() == e);
                }
                let p = chars_of(e.0.as_str());
                if !chars_eq(&p, &kc) {
                    kept.push(e);
                }
                proof {
                    i = i + 1;
                }
                assert(rest@ =~= orig.skip(i as int));
            }
            assert(orig.take(i as int) =~= orig);
            assert(orig == old(self).wildcards@);
            assert(pred =~= (|e: (String, T)| e.0@ != route_key(host@)));
            self.wildcards = kept;
        } else {
            match self.exact_position(&kc) {
                Some(i) => {
                    proof {
                        lemma_exact_index_found(old(self).exact@, kc@);
                    }
                    self.exact.remove(i);
                    proof {
                        assert forall|j: int| 0 <= j < self.exact@.len() implies self.exact@[j].0@ != kc@ by {
                            if j < i {
                                assert(self.exact@[j] == old(self).exact@[j]);
                            } else {
                                assert(self.exact@[j] == old(self).exact@[j + 1]);
                                assert(old(self).exact@[i as int].0@ != old(self).exact@[j + 1].0@);
                            }
                        }
                        lemma_exact_index(self.exact@, kc@, self.exact@.len() as int);
                    }
                },
                None => {
                    proof {
                        lemma_exact_index_absent(old(self).exact@, kc@);
                        lemma_exact_index(self.exact@, kc@, self.exact@.len() as int);
                    }
                },
            }
        }
    }

    /// Number of routes.
    pub fn len(&self) -> (r: usize)
        requires
            self.exact_entries().len() + self.wildcard_entries().len() <= usize::MAX,
        ensures
            r == self.exact_entries().len() + self.wildcard_entries().len(),
    {
        self.exact.len() + self.wildcards.len()
    }

    /// Whether there are no routes.
    pub fn is_empty(&self) -> (r: bool)
        ensures
            r == (self.exact_entries().len() == 0 && self.wildcard_entries().len() == 0),
    {
        self.exact.len() == 0 && self.wildcards.len() == 0
    }
}

proof fn lemma_exact_index_absent<T>(entries: Seq<(String, T)>, k: Seq<char>)
    requires
        exact_index(entries, k) == -1,
    ensures
        forall|j: int| 0 <= j < entries.len() ==> entries[j].0@ != k,
    decreases entries.len(),
{
    if entries.len() > 0 {
        lemma_exact_index_absent(entries.drop_first(), k);
        assert forall|j: int| 0 <= j < entries.len() implies entries[j].0@ != k by {
            if j > 0 {
                assert(entries[j] == entries.drop_first()[j - 1]);
            }
        }
    }
}

/// Character-wise equality.
pub fn chars_eq(a: &Vec<char>, b: &Vec<char>) -> (r: bool)
    ensures
        r == (a@ == b@),
{
    if a.len() != b.len() {
        return false;
    }
    let mut i: usize = 0;
    while i < a.len()
        invariant
            a@.len() == b@.len(),
            i <= a@.len(),
            forall|j: int| 0 <= j < i ==> a@[j] == b@[j],
        decreases a@.len() - i,
    {
        if a[i] != b[i] {
            return false;
        }
        i = i + 1;
    }
    assert(a@ =~= b@);
    true
}

/// Whether the wildcard `p` matches `host`.
fn pattern_matches(p: &Vec<char>, host: &Vec<char>) -> (r: bool)
    ensures
        r == wildcard_matches(p@, host@),
{
    if !(p.len() >= 2 && p[0] == '*' && p[1] == '.') {
        return false;
    }
    let sl = p.len() - 1;
    if sl > host.len() {
        return false;
    }
    let off = host.len() - sl;
    let mut i: usize = 0;
    while i < sl
        invariant
            sl == p@.len() - 1,
            off + sl == host@.len(),
            host@.len() == host.len(),
            i <= sl,
            forall|j: int| 0 <= j < i ==> host@.skip(off as int)[j] == #[trigger] p@.skip(1)[j],
        decreases sl - i,
    {
        if host[off + i] != p[1 + i] {
            assert(host@.skip(off as int)[i as int] != p@.skip(1)[i as int]);
            return false;
        }
        i = i + 1;
    }
    assert(host@.skip(off as int) =~= p@.skip(1));
    true
}

/// The storage key for `host` (see `route_key`).
fn route_key_of(host: &str) -> (r: String)
    ensures
        r@ == route_key(host@),
{
    match canonicalize_egress_host(host) {
        Ok(k) => k,
        Err(_) => {
            let cs = chars_of(host);
            lowercase(cs.as_slice())
        },
    }
}

/// Where a routed request goes: a client group and a proxy within it.
#[derive(Clone, Debug, PartialEq, Eq, Hash)]
pub struct RouteTarget {
    pub group_id: String,
    pub proxy_name: String,
}

/// Routes by listening port.
pub struct PortRouter<T> {
    routes: std::collections::HashMap<u16, T>,
}

impl<T> PortRouter<T> {
    /// The routes, by port.
    pub closed spec fn routes(&self) -> Map<u16, T> {
        self.routes@
    }

    /// An empty router.
    pub fn new() -> (r: Self)
        ensures
            r.routes() == Map::<u16, T>::empty(),
    {
        PortRouter { routes: std::collections::HashMap::new() }
    }

    /// Routes `port` to `value`, replacing any earlier route for it.
    pub fn add_route(&mut self, port: u16, value: T)
        ensures
            final(self).routes() == old(self).routes().insert(port, value),
    {
        self.routes.insert(port, value);
    }

    /// The route for `port`.
    pub fn get(&self, port: u16) -> (r: Option<&T>)
        ensures
            match r {
                Some(v) => self.routes().contains_key(port) && *v == self.routes()[port],
                None => !self.routes().contains_key(port),
            },
    {
        self.routes.get(&port)
    }

    /// Drops the route for `port`.
    pub fn remove(&mut self, port: u16)
        ensures
            final(self).routes() == old(self).routes().remove(port),
    {
        self.routes.remove(&port);
    }
}

/// The routes of a fresh port router after `adds` were added in order.
pub open spec fn routes_after<T>(adds: Seq<(u16, T)>) -> Map<u16, T>
    decreases adds.len(),
{
    if adds.len() == 0 {
        Map::empty()
    } else {
        routes_after(adds.drop_last()).insert(adds.last().0, adds.last().1)
    }
}

/// The value last added for `port` in `adds`, if any.
pub open spec fn last_added<T>(adds: Seq<(u16, T)>, port: u16) -> Option<T>
    decreases adds.len(),
{
    if adds.len() == 0 {
        None
    } else if adds.last().0 == port {
        Some(adds.last().1)
    } else {
        last_added(adds.drop_last(), port)
    }
}

/// A fresh port router that was given a sequence of routes answers, for
/// each port, with the value last added for it, and with nothing for a
/// port never added.
pub proof fn law_port_router_answers_last_added<T>(adds: Seq<(u16, T)>, port: u16)
    ensures
        match last_added(adds, port) {
            Some(v) => routes_after(adds).contains_key(port) && routes_after(adds)[port] == v,
            None => !routes_after(adds).contains_key(port),
        },
    decreases adds.len(),
{
    if adds.len() > 0 {
        law_port_router_answers_last_added(adds.drop_last(), port);
    }
}

proof fn lemma_decimal_digits(n: nat)
    ensures
        decimal(n).len() > 0,
        forall|i: int| 0 <= i < decimal(n).len() ==> is_ascii_digit_char(#[trigger] decimal(n)[i]),
        char_digits_value(decimal(n)) == n,
    decreases n,
{
    if n >= 10 {
        lemma_decimal_digits(n / 10);
        let d = decimal(n);
        assert(d.drop_last() =~= decimal(n / 10));
        assert forall|i: int| 0 <= i < d.len() implies is_ascii_digit_char(#[trigger] d[i]) by {
            if i < d.len() - 1 {
                assert(d[i] == decimal(n / 10)[i]);
            }
        }
        assert(digit_char(n % 10) as u32 == n % 10 + 0x30);
        assert((d.last() as u32) - 0x30 == n % 10);
        assert(char_digits_value(d.drop_last()) == n / 10);
        assert(char_digits_value(d) == char_digits_value(d.drop_last()) * 10 + ((d.last() as u32)
            - 0x30) as nat);
        assert(n == (n / 10) * 10 + n % 10);
    } else {
        assert(digit_char(n) as u32 == n + 0x30);
        assert(decimal(n) =~= seq![digit_char(n)]);
        assert(seq![digit_char(n)].drop_last() =~= Seq::<char>::empty());
        assert(char_digits_value(Seq::<char>::empty()) == 0);
        assert(char_digits_value(decimal(n)) == char_digits_value(decimal(n).drop_last()) * 10 + ((
        decimal(n).last() as u32) - 0x30) as nat);
    }
}

proof fn lemma_count_concat(x: Seq<char>, y: Seq<char>, c: char)
    ensures
        count_char(x + y, c) == count_char(x, c) + count_char(y, c),
    decreases y.len(),
{
    if y.len() > 0 {
        lemma_count_concat(x, y.drop_last(), c);
        assert((x + y).drop_last() =~= x + y.drop_last());
    } else {
        assert(x + y =~= x);
    }
}

proof fn lemma_count_absent(s: Seq<char>, c: char)
    requires
        forall|i: int| 0 <= i < s.len() ==> s[i] != c,
    ensures
        count_char(s, c) == 0,
{
    lemma_last_char_index(s, c, -1);
    lemma_count_zero(s, c);
}

proof fn lemma_authority_with_port(a: Seq<char>, port: u16)
    requires
        a.len() > 0,
        forall|i: int| 0 <= i < a.len() ==> a[i] != ':' && a[i] != '[',
    ensures
        authority_host(a) == Ok::<Seq<char>, HostError>(a),
        authority_host(a + seq![':'] + decimal(port as nat)) == Ok::<Seq<char>, HostError>(a),
{
    let d = decimal(port as nat);
    lemma_decimal_digits(port as nat);
    lemma_count_absent(a, ':');
    let t = a + seq![':'] + d;
    assert forall|i: int| 0 <= i < d.len() implies d[i] != ':' by {
        assert(is_ascii_digit_char(d[i]));
    }
    lemma_count_absent(d, ':');
    lemma_count_concat(a + seq![':'], d, ':');
    lemma_count_concat(a, seq![':'], ':');
    assert(seq![':'].drop_last() =~= Seq::<char>::empty());
    assert(count_char(Seq::<char>::empty(), ':') == 0);
    assert(seq![':'].last() == ':');
    assert(count_char(seq![':'], ':') == 1);
    assert(t == (a + seq![':']) + d);
    assert(count_char(t, ':') == 1);
    assert forall|j: int| a.len() < j < t.len() implies t[j] != ':' by {
        assert(t[j] == d[j - a.len() - 1]);
    }
    lemma_last_char_index(t, ':', a.len() as int);
    assert(t.skip(a.len() + 1int) =~= d);
    assert(t.take(a.len() as int) =~= a);
    assert(port_digits(d) == d) by {
        assert(is_ascii_digit_char(d[0]));
    }
    assert(t[0] == a[0]);
}

/// An authority without brackets that holds two or more `:` is a bare IPv6
/// literal and is kept whole: no `:` of it is read as a port separator, and
/// its routing key is all of it, lowercased (after a `*.` marker, which is
/// kept).
pub proof fn law_bare_ipv6_is_kept_whole(h: Seq<char>)
    requires
        trim_uws(h).len() > 0,
        !has_scheme_separator(trim_uws(h)),
        !has_char(trim_uws(h), '/'),
        !has_char(trim_uws(h), '?'),
        !has_char(trim_uws(h), '#'),
    ensures
        ({
            let t = trim_uws(h);
            &&& (!is_wildcard(t) && t[0] != '[' && count_char(t, ':') >= 2) ==> canonical_host(h)
                == Ok::<Seq<char>, HostError>(unicode_lowercase(t))
            &&& (is_wildcard(t) && t.len() > 2 && t[2] != '[' && count_char(t.skip(2), ':') >= 2)
                ==> canonical_host(h) == Ok::<Seq<char>, HostError>(
                seq!['*', '.'] + unicode_lowercase(t.skip(2)),
            )
        }),
{
    let t = trim_uws(h);
    if is_wildcard(t) && t.len() > 2 {
        assert(t.skip(2)[0] == t[2]);
    }
}

/// The port of an egress host never changes its routing key: a bare host
/// (no port, brackets, path characters or whitespace) and the same host
/// with any `:port` are accepted together, and then give the same key.
pub proof fn law_port_does_not_change_routing_key(h: Seq<char>, port: u16)
    requires
        h.len() > 0,
        forall|i: int|
            0 <= i < h.len() ==> #[trigger] h[i] != ':' && h[i] != '[' && h[i] != '/' && h[i]
                != '?' && h[i] != '#' && !is_unicode_whitespace(h[i]),
    ensures
        (canonical_host(h + seq![':'] + decimal(port as nat)) is Ok) == (canonical_host(h) is Ok),
        canonical_host(h) is Ok ==> canonical_host(h + seq![':'] + decimal(port as nat))
            == canonical_host(h),
{
    let d = decimal(port as nat);
    lemma_decimal_digits(port as nat);
    let t = h + seq![':'] + d;
    assert forall|j: int| 0 <= j < t.len() implies #[trigger] t[j] != '/' && t[j] != '?' && t[j]
        != '#' && !is_unicode_whitespace(t[j]) by {
        if j < h.len() {
            assert(t[j] == h[j]);
        } else if j > h.len() {
            assert(t[j] == d[j - h.len() - 1]);
            assert(is_ascii_digit_char(d[j - h.len() - 1]));
        }
    }
    lemma_leading_uws_at(h, 0);
    lemma_trailing_uws_at(h, 0);
    lemma_leading_uws_at(t, 0);
    lemma_trailing_uws_at(t, 0);
    assert(trim_uws(h) =~= h);
    assert(trim_uws(t) =~= t);
    assert(!has_scheme_separator(t)) by {
        if has_scheme_separator(t) {
            let i = choose|i: int| 0 <= i && i + 3 <= t.len() && #[trigger] t[i] == ':' && t[i + 1]
                == '/' && t[i + 2] == '/';
            assert(t[i + 1] != '/');
        }
    }
    assert(!has_scheme_separator(h)) by {
        if has_scheme_separator(h) {
            let i = choose|i: int| 0 <= i && i + 3 <= h.len() && #[trigger] h[i] == ':' && h[i + 1]
                == '/' && h[i + 2] == '/';
            assert(h[i] != ':');
        }
    }
    assert(!has_char(t, '/') && !has_char(t, '?') && !has_char(t, '#'));
    assert(!has_char(h, '/') && !has_char(h, '?') && !has_char(h, '#'));
    if h.len() >= 2 {
        assert(t[0] == h[0] && t[1] == h[1]);
    } else {
        assert(t[1] == ':');
    }
    assert(is_wildcard(t) == is_wildcard(h));
    if is_wildcard(h) {
        let ah = h.skip(2);
        assert(t.skip(2) =~= ah + seq![':'] + d);
        if ah.len() > 0 {
            assert forall|i: int| 0 <= i < ah.len() implies ah[i] != ':' && ah[i] != '[' by {
                assert(ah[i] == h[i + 2]);
            }
            lemma_authority_with_port(ah, port);
        } else {
            assert(h.len() == 2);
            let at = t.skip(2);
            assert(at =~= seq![':'] + d);
            assert forall|i: int| 0 <= i < d.len() implies d[i] != ':' by {
                assert(is_ascii_digit_char(d[i]));
            }
            lemma_count_absent(d, ':');
            lemma_count_concat(seq![':'], d, ':');
            assert(seq![':'].drop_last() =~= Seq::<char>::empty());
            assert(count_char(Seq::<char>::empty(), ':') == 0);
            assert(seq![':'].last() == ':');
            assert(count_char(seq![':'], ':') == 1);
            assert(count_char(at, ':') == 1);
            assert(at[0] != '[');
            assert forall|j: int| 0 < j < at.len() implies at[j] != ':' by {
                assert(at[j] == d[j - 1]);
            }
            lemma_last_char_index(at, ':', 0);
            assert(at[0] == ':');
            assert(at.skip(1) =~= d);
            assert(port_digits(d) == d) by {
                assert(is_ascii_digit_char(d[0]));
            }
            assert(authority_host(at) == Err::<Seq<char>, HostError>(HostError::Empty));
            assert(canonical_host(h) is Err);
        }
    } else {
        lemma_authority_with_port(h, port);
    }
}

} // verus!
