//! Byte-sequence primitives: searching, ASCII whitespace trimming and
//! ASCII case folding, each with its specification and the lemmas that tie
//! the executable search loops to it.

use vstd::prelude::*;

verus! {

/// `u8::is_ascii_whitespace`: space, tab, line feed, form feed, carriage return.
pub open spec fn is_ascii_ws(b: u8) -> bool {
    b == 0x20 || b == 0x09 || b == 0x0a || b == 0x0c || b == 0x0d
}

/// `u8::to_ascii_lowercase`.
pub open spec fn ascii_lower(b: u8) -> u8 {
    if 0x41 <= b <= 0x5a {
        (b + 0x20) as u8
    } else {
        b
    }
}

/// Index of the first `d` in `s`, or -1 when `s` holds none.
pub open spec fn first_index_of(s: Seq<u8>, d: u8) -> int
    decreases s.len(),
{
    if s.len() == 0 {
        -1
    } else if s[0] == d {
        0
    } else {
        let r = first_index_of(s.drop_first(), d);
        if r < 0 {
            -1
        } else {
            r + 1
        }
    }
}

/// Index of the last `d` in `s`, or -1 when `s` holds none.
pub open spec fn last_index_of(s: Seq<u8>, d: u8) -> int
    decreases s.len(),
{
    if s.len() == 0 {
        -1
    } else if s.last() == d {
        s.len() - 1
    } else {
        last_index_of(s.drop_last(), d)
    }
}

/// Number of ASCII whitespace bytes at the start of `s`.
pub open spec fn leading_ws(s: Seq<u8>) -> nat
    decreases s.len(),
{
    if s.len() == 0 || !is_ascii_ws(s[0]) {
        0
    } else {
        1 + leading_ws(s.drop_first())
    }
}

/// Number of ASCII whitespace bytes at the end of `s`.
pub open spec fn trailing_ws(s: Seq<u8>) -> nat
    decreases s.len(),
{
    if s.len() == 0 || !is_ascii_ws(s.last()) {
        0
    } else {
        1 + trailing_ws(s.drop_last())
    }
}

/// `<[u8]>::trim_ascii`: `s` without leading and trailing ASCII whitespace.
pub open spec fn trim_ws(s: Seq<u8>) -> Seq<u8> {
    if leading_ws(s) == s.len() {
        Seq::empty()
    } else {
        s.subrange(leading_ws(s) as int, s.len() - trailing_ws(s))
    }
}

/// Whether `a` and `b` are equal ignoring ASCII case.
pub open spec fn eq_ignore_ascii_case(a: Seq<u8>, b: Seq<u8>) -> bool {
    a.len() == b.len() && forall|i: int| 0 <= i < a.len() ==> ascii_lower(#[trigger] a[i]) == ascii_lower(b[i])
}

pub proof fn lemma_first_index_of(s: Seq<u8>, d: u8)
    ensures
        -1 <= first_index_of(s, d) < s.len(),
        first_index_of(s, d) == -1 <==> (forall|j: int| 0 <= j < s.len() ==> s[j] != d),
        first_index_of(s, d) >= 0 ==> s[first_index_of(s, d)] == d,
        forall|j: int| 0 <= j < first_index_of(s, d) ==> s[j] != d,
    decreases s.len(),
{
    if s.len() > 0 && s[0] != d {
        lemma_first_index_of(s.drop_first(), d);
        assert forall|j: int| 0 < j < s.len() implies s[j] == s.drop_first()[j - 1] by {}
        if first_index_of(s.drop_first(), d) == -1 {
            assert forall|j: int| 0 <= j < s.len() implies s[j] != d by {
                if j > 0 {
                    assert(s[j] == s.drop_first()[j - 1]);
                }
            }
        }
    }
}

/// The first `d` sits at `i` when no earlier byte is `d`.
pub proof fn lemma_first_index_at(s: Seq<u8>, d: u8, i: int)
    requires
        0 <= i <= s.len(),
        forall|j: int| 0 <= j < i ==> s[j] != d,
        i < s.len() ==> s[i] == d,
    ensures
        first_index_of(s, d) == (if i < s.len() {
            i
        } else {
            -1
        }),
{
    lemma_first_index_of(s, d);
}

pub proof fn lemma_last_index_of(s: Seq<u8>, d: u8)
    ensures
        -1 <= last_index_of(s, d) < s.len(),
        last_index_of(s, d) == -1 <==> (forall|j: int| 0 <= j < s.len() ==> s[j] != d),
        last_index_of(s, d) >= 0 ==> s[last_index_of(s, d)] == d,
        forall|j: int| last_index_of(s, d) < j < s.len() ==> s[j] != d,
    decreases s.len(),
{
    if s.len() > 0 && s.last() != d {
        lemma_last_index_of(s.drop_last(), d);
        assert forall|j: int| 0 <= j < s.len() - 1 implies s[j] == s.drop_last()[j] by {}
        if last_index_of(s.drop_last(), d) == -1 {
            assert forall|j: int| 0 <= j < s.len() implies s[j] != d by {
                if j < s.len() - 1 {
                    assert(s[j] == s.drop_last()[j]);
                }
            }
        }
    }
}

pub proof fn lemma_last_index_at(s: Seq<u8>, d: u8, i: int)
    requires
        -1 <= i < s.len(),
        forall|j: int| i < j < s.len() ==> s[j] != d,
        i >= 0 ==> s[i] == d,
    ensures
        last_index_of(s, d) == i,
{
    lemma_last_index_of(s, d);
}

pub proof fn lemma_leading_ws(s: Seq<u8>)
    ensures
        leading_ws(s) <= s.len(),
        forall|j: int| 0 <= j < leading_ws(s) ==> is_ascii_ws(s[j]),
        leading_ws(s) < s.len() ==> !is_ascii_ws(s[leading_ws(s) as int]),
    decreases s.len(),
{
    if s.len() > 0 && is_ascii_ws(s[0]) {
        lemma_leading_ws(s.drop_first());
        assert forall|j: int| 0 <= j < leading_ws(s) implies is_ascii_ws(s[j]) by {
            if j > 0 {
                assert(s[j] == s.drop_first()[j - 1]);
            }
        }
    }
}

pub proof fn lemma_leading_ws_at(s: Seq<u8>, k: int)
    requires
        0 <= k <= s.len(),
        forall|j: int| 0 <= j < k ==> is_ascii_ws(s[j]),
        k < s.len() ==> !is_ascii_ws(s[k]),
    ensures
        leading_ws(s) == k,
{
    lemma_leading_ws(s);
}

pub proof fn lemma_trailing_ws(s: Seq<u8>)
    ensures
        trailing_ws(s) <= s.len(),
        forall|j: int| s.len() - trailing_ws(s) <= j < s.len() ==> is_ascii_ws(s[j]),
        trailing_ws(s) < s.len() ==> !is_ascii_ws(s[s.len() - trailing_ws(s) - 1]),
    decreases s.len(),
{
    if s.len() > 0 && is_ascii_ws(s.last()) {
        lemma_trailing_ws(s.drop_last());
        assert forall|j: int| s.len() - trailing_ws(s) <= j < s.len() implies is_ascii_ws(s[j]) by {
            if j < s.len() - 1 {
                assert(s[j] == s.drop_last()[j]);
            }
        }
    }
}

pub proof fn lemma_trailing_ws_at(s: Seq<u8>, k: int)
    requires
        0 <= k <= s.len(),
        forall|j: int| s.len() - k <= j < s.len() ==> is_ascii_ws(s[j]),
        k < s.len() ==> !is_ascii_ws(s[s.len() - k - 1]),
    ensures
        trailing_ws(s) == k,
{
    lemma_trailing_ws(s);
}

/// Number of bytes at the start of `s` that are not ASCII whitespace.
pub open spec fn leading_non_ws(s: Seq<u8>) -> nat
    decreases s.len(),
{
    if s.len() == 0 || is_ascii_ws(s[0]) {
        0
    } else {
        1 + leading_non_ws(s.drop_first())
    }
}

pub proof fn lemma_leading_non_ws(s: Seq<u8>)
    ensures
        leading_non_ws(s) <= s.len(),
        forall|j: int| 0 <= j < leading_non_ws(s) ==> !is_ascii_ws(s[j]),
        leading_non_ws(s) < s.len() ==> is_ascii_ws(s[leading_non_ws(s) as int]),
    decreases s.len(),
{
    if s.len() > 0 && !is_ascii_ws(s[0]) {
        lemma_leading_non_ws(s.drop_first());
        assert forall|j: int| 0 <= j < leading_non_ws(s) implies !is_ascii_ws(s[j]) by {
            if j > 0 {
                assert(s[j] == s.drop_first()[j - 1]);
            }
        }
    }
}

pub proof fn lemma_leading_non_ws_at(s: Seq<u8>, k: int)
    requires
        0 <= k <= s.len(),
        forall|j: int| 0 <= j < k ==> !is_ascii_ws(s[j]),
        k < s.len() ==> is_ascii_ws(s[k]),
    ensures
        leading_non_ws(s) == k,
{
    lemma_leading_non_ws(s);
}

/// Whether `b` is ASCII whitespace.
pub fn is_ascii_whitespace_byte(b: u8) -> (r: bool)
    ensures
        r == is_ascii_ws(b),
{
    b == 0x20 || b == 0x09 || b == 0x0a || b == 0x0c || b == 0x0d
}

/// ASCII lowercase of one byte.
pub fn to_ascii_lower(b: u8) -> (r: u8)
    ensures
        r == ascii_lower(b),
{
    if 0x41 <= b && b <= 0x5a {
        b + 0x20
    } else {
        b
    }
}

/// Position of the first `d` in `data[from..to]`, as an index into `data`.
pub fn find_byte(data: &[u8], from: usize, to: usize, d: u8) -> (r: Option<usize>)
    requires
        from <= to <= data@.len(),
    ensures
        match r {
            Some(i) => from <= i < to && first_index_of(data@.subrange(from as int, to as int), d)
                == i - from,
            None => first_index_of(data@.subrange(from as int, to as int), d) == -1,
        },
{
    let mut i = from;
    while i < to
        invariant
            from <= i <= to <= data@.len(),
            forall|j: int| from <= j < i ==> data@[j] != d,
        decreases to - i,
    {
        if data[i] == d {
            proof {
                lemma_first_index_at(data@.subrange(from as int, to as int), d, i - from);
            }
            return Some(i);
        }
        i = i + 1;
    }
    proof {
        lemma_first_index_at(data@.subrange(from as int, to as int), d, to - from);
    }
    None
}

/// Position of the last `d` in `data`.
pub fn rfind_byte(data: &[u8], d: u8) -> (r: Option<usize>)
    ensures
        match r {
            Some(i) => i < data@.len() && last_index_of(data@, d) == i,
            None => last_index_of(data@, d) == -1,
        },
{
    let mut i = data.len();
    while i > 0
        invariant
            i <= data@.len(),
            forall|j: int| i <= j < data@.len() ==> data@[j] != d,
        decreases i,
    {
        if data[i - 1] == d {
            proof {
                lemma_last_index_at(data@, d, i - 1);
            }
            return Some(i - 1);
        }
        i = i - 1;
    }
    proof {
        lemma_last_index_at(data@, d, -1);
    }
    None
}

/// `<[u8]>::trim_ascii` returned as the bounds `(start, end)` of the trimmed
/// part inside `data`.
pub fn trim_ascii_bounds(data: &[u8]) -> (r: (usize, usize))
    ensures
        r.0 <= r.1 <= data@.len(),
        data@.subrange(r.0 as int, r.1 as int) == trim_ws(data@),
{
    let mut start: usize = 0;
    while start < data.len() && is_ascii_whitespace_byte(data[start])
        invariant
            start <= data@.len(),
            forall|j: int| 0 <= j < start ==> is_ascii_ws(data@[j]),
        decreases data@.len() - start,
    {
        start = start + 1;
    }
    proof {
        lemma_leading_ws_at(data@, start as int);
    }
    if start == data.len() {
        assert(data@.subrange(start as int, start as int) =~= Seq::<u8>::empty());
        return (start, start);
    }
    let mut end: usize = data.len();
    while end > start && is_ascii_whitespace_byte(data[end - 1])
        invariant
            start < data@.len(),
            !is_ascii_ws(data@[start as int]),
            start <= end <= data@.len(),
            forall|j: int| end <= j < data@.len() ==> is_ascii_ws(data@[j]),
        decreases end,
    {
        end = end - 1;
    }
    proof {
        lemma_trailing_ws_at(data@, data@.len() - end);
    }
    (start, end)
}

/// `<[u8]>::eq_ignore_ascii_case`.
pub fn bytes_eq_ignore_ascii_case(a: &[u8], b: &[u8]) -> (r: bool)
    ensures
        r == eq_ignore_ascii_case(a@, b@),
{
    if a.len() != b.len() {
        return false;
    }
    let mut i: usize = 0;
    while i < a.len()
        invariant
            a@.len() == b@.len(),
            i <= a@.len(),
            forall|j: int| 0 <= j < i ==> ascii_lower(#[trigger] a@[j]) == ascii_lower(b@[j]),
        decreases a@.len() - i,
    {
        if to_ascii_lower(a[i]) != to_ascii_lower(b[i]) {
            return false;
        }
        i = i + 1;
    }
    true
}

} // verus!
