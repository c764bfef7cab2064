//! Start-up and supervision choices of the control daemon: which declared
//! configuration source of a kind is used, where the database and the YAML
//! file are, how a failing source layer is retried, and what its health
//! endpoint answers.

use vstd::prelude::*;
use crate::admin::{ascii_lower_char, eq_ignore_ascii_case_chars};
use crate::text::{chars_of, decimal, push_decimal, push_str_chars, string_from_chars, trim_string, trim_uws};

verus! {

/// A declared configuration source.
#[derive(Debug, Clone, PartialEq, Eq)]
pub struct ConfigSourceSpec {
    pub kind: String,
    pub priority: i64,
    pub path: Option<String>,
    pub database_url: Option<String>,
}

/// The index of the source of `kind` (compared ignoring ASCII case) with
/// the highest priority, the last of them on a tie; -1 when there is none.
pub open spec fn selected_source(s: Seq<ConfigSourceSpec>, kind: Seq<char>) -> int
    decreases s.len(),
{
    if s.len() == 0 {
        -1
    } else {
        let i = selected_source(s.drop_last(), kind);
        if eq_ignore_ascii_case_chars(s.last().kind@, kind) && (i < 0 || s[i].priority
            <= s.last().priority) {
            s.len() - 1
        } else {
            i
        }
    }
}

fn lower(c: char) -> (r: char)
    ensures
        r == ascii_lower_char(c),
{
    if 'A' <= c && c <= 'Z' {
        let l = ((c as u32) + 32) as u8 as char;
        assert((((c as u32) + 32) as u8) as char == ((c as u32) + 32) as char);
        l
    } else {
        c
    }
}

fn same_ignoring_ascii_case(a: &str, b: &str) -> (r: bool)
    ensures
        r == eq_ignore_ascii_case_chars(a@, b@),
{
    let x = chars_of(a);
    let y = chars_of(b);
    if x.len() != y.len() {
        return false;
    }
    let mut i: usize = 0;
    while i < x.len()
        invariant
            i <= x@.len(),
            x@ == a@,
            y@ == b@,
            x@.len() == y@.len(),
            forall|j: int| 0 <= j < i ==> ascii_lower_char(#[trigger] x@[j]) == ascii_lower_char(
                y@[j],
            ),
        decreases x@.len() - i,
    {
        if lower(x[i]) != lower(y[i]) {
            return false;
        }
        i = i + 1;
    }
    true
}

/// The source of `kind` that is used: the one with the highest priority,
/// the last of them on a tie.
pub fn select_source(sources: &[ConfigSourceSpec], kind: &str) -> (r: Option<usize>)
    ensures
        match r {
            Some(i) => i < sources@.len() && i == selected_source(sources@, kind@),
            None => selected_source(sources@, kind@) == -1,
        },
{
    let mut best: Option<usize> = None;
    let mut i: usize = 0;
    while i < sources.len()
        invariant
            i <= sources@.len(),
            match best {
                Some(b) => b == selected_source(sources@.take(i as int), kind@),
                None => selected_source(sources@.take(i as int), kind@) == -1,
            },
            forall|b: usize| best == Some(b) ==> b < i,
        decreases sources@.len() - i,
    {
        assert(sources@.take(i + 1).drop_last() =~= sources@.take(i as int));
        if same_ignoring_ascii_case(sources[i].kind.as_str(), kind) {
            match best {
                Some(b) => {
                    assert(sources@.take(i + 1)[b as int] == sources@[b as int]);
                    if sources[b].priority <= sources[i].priority {
                        best = Some(i);
                    }
                },
                None => {
                    best = Some(i);
                },
            }
        }
        i = i + 1;
    }
    assert(sources@.take(i as int) =~= sources@);
    best
}

/// The database the daemon opens: that of the SQLite source used, when it
/// names one; otherwise `default_url`.
pub fn configured_database_url(sources: &[ConfigSourceSpec], default_url: &str) -> (r: String)
    ensures
        r@ == ({
            let i = selected_source(sources@, "sqlite"@);
            if i >= 0 && sources@[i].database_url is Some {
                sources@[i].database_url->Some_0@
            } else {
                default_url@
            }
        }),
{
    match select_source(sources, "sqlite") {
        Some(i) => match &sources[i].database_url {
            Some(u) => u.clone(),
            None => default_url.to_owned(),
        },
        None => default_url.to_owned(),
    }
}

/// Why the YAML source cannot be set up.
#[derive(Debug, Clone, Copy, PartialEq, Eq, Structural)]
pub struct YamlSourceWithoutPath;

impl YamlSourceWithoutPath {
    /// The message this error is reported with.
    pub fn message(&self) -> (r: &'static str)
        ensures
            r@ == "YAML config source requires path"@,
    {
        "YAML config source requires path"
    }
}

/// The YAML file the daemon watches, if any: the path of the YAML source
/// used (which must name one); without a YAML source, the legacy server
/// configuration path, if one is set.
pub fn yaml_source_path(sources: &[ConfigSourceSpec], legacy: Option<&str>) -> (r: Result<
    Option<String>,
    YamlSourceWithoutPath,
>)
    ensures
        ({
            let i = selected_source(sources@, "yaml"@);
            if i >= 0 {
                match sources@[i].path {
                    Some(p) => r matches Ok(Some(x)) && x@ == p@,
                    None => r == Err::<Option<String>, YamlSourceWithoutPath>(YamlSourceWithoutPath),
                }
            } else {
                match legacy {
                    Some(l) => r matches Ok(Some(x)) && x@ == l@,
                    None => r matches Ok(None),
                }
            }
        }),
{
    match select_source(sources, "yaml") {
        Some(i) => match &sources[i].path {
            Some(p) => Ok(Some(p.clone())),
            None => Err(YamlSourceWithoutPath),
        },
        None => match legacy {
            Some(l) => Ok(Some(l.to_owned())),
            None => Ok(None),
        },
    }
}

/// The legacy server configuration path, trimmed, when it is set and not
/// blank.
pub fn legacy_server_config_path(raw: Option<&str>) -> (r: Option<String>)
    ensures
        match raw {
            Some(s) => if trim_uws(s@).len() > 0 {
                r matches Some(x) && x@ == trim_uws(s@)
            } else {
                r is None
            },
            None => r is None,
        },
{
    match raw {
        Some(s) => {
            let t = trim_string(s);
            let tc = chars_of(t.as_str());
            if tc.len() > 0 {
                Some(t)
            } else {
                None
            }
        },
        None => None,
    }
}

/// The longest wait, in seconds, before a failing source layer is applied
/// again.
pub const MAX_LAYER_RETRY_SECS: u64 = 30;

/// The wait after another failed attempt to apply a source layer: twice
/// the last one, at most thirty seconds. (A new version of the layer starts
/// again from one second.)
pub fn next_layer_retry_secs(current: u64) -> (r: u64)
    ensures
        r == if current >= 15 {
            MAX_LAYER_RETRY_SECS
        } else {
            (current * 2) as u64
        },
{
    if current >= 15 {
        MAX_LAYER_RETRY_SECS
    } else {
        current * 2
    }
}

/// The health endpoint's answer: `GET /healthz` is answered 200 once the
/// daemon is ready and 503 before; anything else is 404.
pub open spec fn healthz_text(request: Seq<char>, ready: bool) -> Seq<char> {
    let (status, body) = if request.len() >= 12 && request.take(12) == "GET /healthz"@ {
        if ready {
            ("200 OK"@, "ok\n"@)
        } else {
            ("503 Service Unavailable"@, "not ready\n"@)
        }
    } else {
        ("404 Not Found"@, "not found\n"@)
    };
    "HTTP/1.1 "@ + status + "\r\nContent-Type: text/plain\r\nContent-Length: "@ + decimal(
        body.len(),
    ) + "\r\n\r\n"@ + body
}

/// The answer of the health endpoint to `request`.
pub fn healthz_response(request: &str, ready: bool) -> (r: String)
    ensures
        r@ == healthz_text(request@, ready),
{
    let cs = chars_of(request);
    let prefix = chars_of("GET /healthz");
    proof {
        reveal_strlit("GET /healthz");
    }
    let mut is_healthz = cs.len() >= 12;
    let mut i: usize = 0;
    while is_healthz && i < 12
        invariant
            i <= 12,
            prefix@ == "GET /healthz"@,
            prefix@.len() == 12,
            cs@ == request@,
            is_healthz ==> cs@.len() >= 12 && forall|j: int| 0 <= j < i ==> cs@[j] == prefix@[j],
            !is_healthz ==> !(request@.len() >= 12 && request@.take(12) == "GET /healthz"@),
        decreases 12 - i,
    {
        if cs[i] != prefix[i] {
            is_healthz = false;
            assert(request@.take(12)[i as int] != "GET /healthz"@[i as int]);
        }
        i = i + 1;
    }
    if is_healthz {
        assert(request@.take(12) =~= "GET /healthz"@);
    }
    let (status, body) = if is_healthz {
        if ready {
            ("200 OK", "ok\n")
        } else {
            ("503 Service Unavailable", "not ready\n")
        }
    } else {
        ("404 Not Found", "not found\n")
    };
    proof {
        reveal_strlit("ok\n");
        reveal_strlit("not ready\n");
        reveal_strlit("not found\n");
    }
    let mut out: Vec<char> = Vec::new();
    push_str_chars(&mut out, "HTTP/1.1 ");
    push_str_chars(&mut out, status);
    push_str_chars(&mut out, "\r\nContent-Type: text/plain\r\nContent-Length: ");
    let n: u64 = if is_healthz {
        if ready {
            3
        } else {
            10
        }
    } else {
        10
    };
    push_decimal(&mut out, n);
    push_str_chars(&mut out, "\r\n\r\n");
    push_str_chars(&mut out, body);
    string_from_chars(out.as_slice())
}

} // verus!
