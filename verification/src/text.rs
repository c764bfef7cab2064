//! Character and byte helpers shared by the parsers of this crate.

use vstd::prelude::*;
use vstd::utf8::*;

verus! {

/// Whether `c` is one of the characters that `char::is_whitespace` accepts
/// (the Unicode `White_Space` property).
pub open spec fn is_unicode_whitespace(c: char) -> bool {
    let u = c as u32;
    ||| 0x09 <= u <= 0x0d
    ||| u == 0x20
    ||| u == 0x85
    ||| u == 0xa0
    ||| u == 0x1680
    ||| 0x2000 <= u <= 0x200a
    ||| u == 0x2028
    ||| u == 0x2029
    ||| u == 0x202f
    ||| u == 0x205f
    ||| u == 0x3000
}

/// Number of Unicode whitespace characters at the start of `s`.
pub open spec fn leading_uws(s: Seq<char>) -> nat
    decreases s.len(),
{
    if s.len() == 0 || !is_unicode_whitespace(s[0]) {
        0
    } else {
        1 + leading_uws(s.drop_first())
    }
}

/// Number of Unicode whitespace characters at the end of `s`.
pub open spec fn trailing_uws(s: Seq<char>) -> nat
    decreases s.len(),
{
    if s.len() == 0 || !is_unicode_whitespace(s.last()) {
        0
    } else {
        1 + trailing_uws(s.drop_last())
    }
}

/// `str::trim`: `s` without leading and trailing Unicode whitespace.
pub open spec fn trim_uws(s: Seq<char>) -> Seq<char> {
    if leading_uws(s) == s.len() {
        Seq::empty()
    } else {
        s.subrange(leading_uws(s) as int, s.len() - trailing_uws(s))
    }
}

pub proof fn lemma_leading_uws_at(s: Seq<char>, k: int)
    requires
        0 <= k <= s.len(),
        forall|j: int| 0 <= j < k ==> is_unicode_whitespace(s[j]),
        k < s.len() ==> !is_unicode_whitespace(s[k]),
    ensures
        leading_uws(s) == k,
    decreases k,
{
    if k > 0 {
        lemma_leading_uws_at(s.drop_first(), k - 1);
    }
}

pub proof fn lemma_trailing_uws_at(s: Seq<char>, k: int)
    requires
        0 <= k <= s.len(),
        forall|j: int| s.len() - k <= j < s.len() ==> is_unicode_whitespace(s[j]),
        k < s.len() ==> !is_unicode_whitespace(s[s.len() - k - 1]),
    ensures
        trailing_uws(s) == k,
    decreases k,
{
    if k > 0 {
        lemma_trailing_uws_at(s.drop_last(), k - 1);
    }
}

/// `str::trim` over characters: the bounds of the trimmed part of `s`.
pub fn trim_bounds(s: &[char]) -> (r: (usize, usize))
    ensures
        r.0 <= r.1 <= s@.len(),
        s@.subrange(r.0 as int, r.1 as int) == trim_uws(s@),
{
    let mut start: usize = 0;
    while start < s.len() && is_whitespace_char(s[start])
        invariant
            start <= s@.len(),
            forall|j: int| 0 <= j < start ==> is_unicode_whitespace(s@[j]),
        decreases s@.len() - start,
    {
        start = start + 1;
    }
    proof {
        lemma_leading_uws_at(s@, start as int);
    }
    if start == s.len() {
        assert(s@.subrange(start as int, start as int) =~= Seq::<char>::empty());
        return (start, start);
    }
    let mut end: usize = s.len();
    while end > start && is_whitespace_char(s[end - 1])
        invariant
            start < s@.len(),
            !is_unicode_whitespace(s@[start as int]),
            start <= end <= s@.len(),
            forall|j: int| end <= j < s@.len() ==> is_unicode_whitespace(s@[j]),
        decreases end,
    {
        end = end - 1;
    }
    proof {
        lemma_trailing_uws_at(s@, s@.len() - end);
    }
    (start, end)
}

proof fn lemma_leading_uws_props(s: Seq<char>)
    ensures
        leading_uws(s) <= s.len(),
        leading_uws(s) < s.len() ==> !is_unicode_whitespace(s[leading_uws(s) as int]),
        forall|j: int| 0 <= j < leading_uws(s) ==> is_unicode_whitespace(#[trigger] s[j]),
    decreases s.len(),
{
    if s.len() > 0 && is_unicode_whitespace(s[0]) {
        lemma_leading_uws_props(s.drop_first());
        assert forall|j: int| 0 <= j < leading_uws(s) implies is_unicode_whitespace(#[trigger] s[j]) by {
            if j > 0 {
                assert(s[j] == s.drop_first()[j - 1]);
            }
        }
    }
}

proof fn lemma_trailing_uws_props(s: Seq<char>)
    ensures
        trailing_uws(s) <= s.len(),
        trailing_uws(s) < s.len() ==> !is_unicode_whitespace(s[s.len() - trailing_uws(s) - 1]),
        forall|j: int| s.len() - trailing_uws(s) <= j < s.len() ==> is_unicode_whitespace(#[trigger] s[j]),
    decreases s.len(),
{
    if s.len() > 0 && is_unicode_whitespace(s.last()) {
        lemma_trailing_uws_props(s.drop_last());
        assert forall|j: int| s.len() - trailing_uws(s) <= j < s.len() implies is_unicode_whitespace(
            #[trigger] s[j],
        ) by {
            if j < s.len() - 1 {
                assert(s[j] == s.drop_last()[j]);
            }
        }
    }
}

/// Trimming twice trims no more than trimming once.
pub proof fn lemma_trim_idempotent(s: Seq<char>)
    ensures
        trim_uws(trim_uws(s)) == trim_uws(s),
{
    lemma_leading_uws_props(s);
    lemma_trailing_uws_props(s);
    let t = trim_uws(s);
    if leading_uws(s) == s.len() {
        assert(t.len() == 0);
        assert(trim_uws(t) =~= t);
    } else {
        let a = leading_uws(s) as int;
        let b = s.len() - trailing_uws(s);
        if b <= a {
            assert(is_unicode_whitespace(s[a]));
        }
        assert(t == s.subrange(a, b));
        assert(t[0] == s[a]);
        assert(t[t.len() - 1] == s[b - 1]);
        assert(leading_uws(t) == 0);
        assert(trailing_uws(t) == 0);
        assert(trim_uws(t) =~= t);
    }
}

/// `str::trim` of `s`, as a `String`.
pub fn trim_string(s: &str) -> (r: String)
    ensures
        r@ == trim_uws(s@),
{
    let cs = chars_of(s);
    let (a, b) = trim_bounds(cs.as_slice());
    string_from_chars(&cs.as_slice()[a..b])
}

/// Decimal digits of `n`, most significant first, without leading zeros.
pub open spec fn decimal(n: nat) -> Seq<char>
    decreases n,
{
    if n < 10 {
        seq![digit_char(n)]
    } else {
        decimal(n / 10).push(digit_char(n % 10))
    }
}

pub open spec fn digit_char(d: nat) -> char {
    ((d + 0x30) as u32) as char
}

/// The characters of `s`.
#[verifier::external_body]
pub fn chars_of(s: &str) -> (r: Vec<char>)
    ensures
        r@ == s@,
{
    s.chars().collect()
}

/// A `String` holding exactly the characters `cs`.
#[verifier::external_body]
pub fn string_from_chars(cs: &[char]) -> (r: String)
    ensures
        r@ == cs@,
{
    cs.iter().collect()
}

/// `std::str::from_utf8` on `bytes`, owned: `Some` exactly when `bytes` is
/// well-formed UTF-8, holding the characters it decodes to.
#[verifier::external_body]
pub fn utf8_to_string(bytes: &[u8]) -> (r: Option<String>)
    ensures
        r is Some <==> valid_utf8(bytes@),
        r matches Some(s) ==> s@ == decode_utf8(bytes@),
{
    std::str::from_utf8(bytes).ok().map(|s| s.to_owned())
}

/// The characters of an optional `String`.
pub open spec fn opt_string_view(o: Option<String>) -> Option<Seq<char>> {
    match o {
        Some(s) => Some(s@),
        None => None,
    }
}

/// What `utf8_to_string` yields for optional bytes, by characters.
pub open spec fn decode_opt(o: Option<Seq<u8>>) -> Option<Seq<char>> {
    match o {
        Some(b) => if valid_utf8(b) {
            Some(decode_utf8(b))
        } else {
            None
        },
        None => None,
    }
}

/// `char::is_whitespace`, written out over its fixed list of code points.
pub fn is_whitespace_char(c: char) -> (r: bool)
    ensures
        r == is_unicode_whitespace(c),
{
    let u = c as u32;
    (0x09 <= u && u <= 0x0d) || u == 0x20 || u == 0x85 || u == 0xa0 || u == 0x1680 || (0x2000
        <= u && u <= 0x200a) || u == 0x2028 || u == 0x2029 || u == 0x202f || u == 0x205f || u
        == 0x3000
}

/// Decimal rendering of `n`.
pub fn decimal_chars(n: u64) -> (r: Vec<char>)
    ensures
        r@ == decimal(n as nat),
    decreases n,
{
    if n < 10 {
        let c = char_of_digit(n);
        let mut v = Vec::new();
        v.push(c);
        v
    } else {
        let mut v = decimal_chars(n / 10);
        let c = char_of_digit(n % 10);
        v.push(c);
        v
    }
}

fn char_of_digit(d: u64) -> (c: char)
    requires
        d < 10,
    ensures
        c == digit_char(d as nat),
{
    let b: u8 = (d as u8) + 0x30;
    b as char
}

/// Appends the characters of `s` to `out`.
pub fn push_str_chars(out: &mut Vec<char>, s: &str)
    ensures
        final(out)@ == old(out)@ + s@,
{
    let cs = chars_of(s);
    let ghost start = out@;
    let mut i: usize = 0;
    while i < cs.len()
        invariant
            i <= cs@.len(),
            cs@ == s@,
            out@ == start + cs@.take(i as int),
        decreases cs@.len() - i,
    {
        out.push(cs[i]);
        assert(cs@.take(i + 1) =~= cs@.take(i as int).push(cs@[i as int]));
        i = i + 1;
    }
    assert(cs@.take(i as int) =~= cs@);
}

/// Appends the decimal rendering of `n` to `out`.
pub fn push_decimal(out: &mut Vec<char>, n: u64)
    ensures
        final(out)@ == old(out)@ + decimal(n as nat),
{
    let ds = decimal_chars(n);
    let ghost start = out@;
    let mut i: usize = 0;
    while i < ds.len()
        invariant
            i <= ds@.len(),
            ds@ == decimal(n as nat),
            out@ == start + ds@.take(i as int),
        decreases ds@.len() - i,
    {
        out.push(ds[i]);
        assert(ds@.take(i + 1) =~= ds@.take(i as int).push(ds@[i as int]));
        i = i + 1;
    }
    assert(ds@.take(i as int) =~= ds@);
}

/// `parts` joined with `sep` between consecutive parts.
pub open spec fn joined(parts: Seq<Seq<char>>, sep: Seq<char>) -> Seq<char>
    decreases parts.len(),
{
    if parts.len() == 0 {
        Seq::empty()
    } else if parts.len() == 1 {
        parts[0]
    } else {
        joined(parts.drop_last(), sep) + sep + parts.last()
    }
}

/// Appends `parts`, joined with `sep`, to `out`.
pub fn push_joined(out: &mut Vec<char>, parts: &Vec<Vec<char>>, sep: &str)
    ensures
        final(out)@ == old(out)@ + joined(parts@.map_values(|p: Vec<char>| p@), sep@),
{
    let ghost ps = parts@.map_values(|p: Vec<char>| p@);
    let ghost start = out@;
    let sc = chars_of(sep);
    let mut i: usize = 0;
    assert(ps.take(0) =~= Seq::<Seq<char>>::empty());
    while i < parts.len()
        invariant
            i <= parts@.len(),
            ps == parts@.map_values(|p: Vec<char>| p@),
            sc@ == sep@,
            out@ == start + joined(ps.take(i as int), sep@),
        decreases parts@.len() - i,
    {
        let ghost before = out@;
        if i > 0 {
            let mut k: usize = 0;
            while k < sc.len()
                invariant
                    k <= sc@.len(),
                    out@ == before + sc@.take(k as int),
                decreases sc@.len() - k,
            {
                out.push(sc[k]);
                assert(sc@.take(k + 1) =~= sc@.take(k as int).push(sc@[k as int]));
                k = k + 1;
            }
            assert(sc@.take(k as int) =~= sc@);
        }
        let ghost mid = out@;
        let p = &parts[i];
        let mut k: usize = 0;
        while k < p.len()
            invariant
                k <= p@.len(),
                out@ == mid + p@.take(k as int),
            decreases p@.len() - k,
        {
            out.push(p[k]);
            assert(p@.take(k + 1) =~= p@.take(k as int).push(p@[k as int]));
            k = k + 1;
        }
        assert(p@.take(k as int) =~= p@);
        assert(ps.take(i + 1).drop_last() =~= ps.take(i as int));
        assert(ps.take(i + 1).last() == p@);
        if i == 0 {
            assert(joined(ps.take(1), sep@) == ps.take(1)[0]);
            assert(out@ =~= start + joined(ps.take(i + 1), sep@));
        } else {
            assert(out@ =~= start + joined(ps.take(i + 1), sep@));
        }
        i = i + 1;
    }
    assert(ps.take(i as int) =~= ps);
}

} // verus!
